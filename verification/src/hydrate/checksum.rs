//! The checksum and the row-type fingerprint that pages carry.

use vstd::prelude::*;

verus! {

/// One step of the reflected CRC-32 shift register: shift right, and fold the
/// polynomial in when the bit that fell off was set.
pub open spec fn crc_step(crc: u32) -> u32 {
    if crc & 1 == 1 {
        (crc >> 1) ^ 0xedb8_8320
    } else {
        crc >> 1
    }
}

/// Four steps of the shift register.
pub open spec fn crc_nibble(crc: u32) -> u32 {
    crc_step(crc_step(crc_step(crc_step(crc))))
}

/// The register after one byte of input.
pub open spec fn crc_byte(crc: u32, byte: u8) -> u32 {
    crc_nibble(crc_nibble(crc ^ (byte as u32)))
}

/// The register after a run of bytes.
pub open spec fn crc_run(crc: u32, bytes: Seq<u8>) -> u32
    decreases bytes.len(),
{
    if bytes.len() == 0 {
        crc
    } else {
        crc_byte(crc_run(crc, bytes.drop_last()), bytes.last())
    }
}

/// The CRC-32 of a run of bytes: register preset to all ones, result inverted.
pub open spec fn crc32_of(bytes: Seq<u8>) -> u32 {
    !crc_run(0xffff_ffff, bytes)
}

/// Entry `i` is the register `i` after four steps.
const NIBBLE: [u32; 16] = [
    0x0000_0000,
    0x1db7_1064,
    0x3b6e_20c8,
    0x26d9_30ac,
    0x76dc_4190,
    0x6b6b_51f4,
    0x4db2_6158,
    0x5005_713c,
    0xedb8_8320,
    0xf00f_9344,
    0xd6d6_a3e8,
    0xcb61_b38c,
    0x9b64_c2b0,
    0x86d3_d2d4,
    0xa00a_e278,
    0xbdbd_f21c,
];

/// The table entry for the low four bits stands in for four steps.
proof fn lemma_nibble_table(crc: u32)
    ensures
        (crc & 0x0f) < 16,
        (crc >> 4) ^ NIBBLE[(crc & 0x0f) as int] == crc_nibble(crc),
{
    let low = crc & 0x0f;
    assert(low < 16) by (bit_vector)
        requires
            low == crc & 0x0f,
    ;
    assert((crc >> 4) ^ crc_nibble(low) == crc_nibble(crc)) by (bit_vector)
        requires
            low == crc & 0x0f,
    ;
    assert(crc_nibble(0) == 0 && crc_nibble(1) == 0x1db7_1064 && crc_nibble(2) == 0x3b6e_20c8
        && crc_nibble(3) == 0x26d9_30ac && crc_nibble(4) == 0x76dc_4190 && crc_nibble(5)
        == 0x6b6b_51f4 && crc_nibble(6) == 0x4db2_6158 && crc_nibble(7) == 0x5005_713c
        && crc_nibble(8) == 0xedb8_8320 && crc_nibble(9) == 0xf00f_9344 && crc_nibble(10)
        == 0xd6d6_a3e8 && crc_nibble(11) == 0xcb61_b38c && crc_nibble(12) == 0x9b64_c2b0
        && crc_nibble(13) == 0x86d3_d2d4 && crc_nibble(14) == 0xa00a_e278 && crc_nibble(15)
        == 0xbdbd_f21c) by (bit_vector);
    assert(NIBBLE[low as int] == crc_nibble(low));
}

/// CRC-32, the usual reversed polynomial, computed a nibble at a time.
///
/// Sixteen entries rather than a 256 entry table: this runs once per 16 KiB
/// page, so the table is cache noise and the loop is not the cost of anything.
pub fn crc32(bytes: &[u8]) -> (crc: u32)
    ensures
        crc == crc32_of(bytes@),
{
    let mut crc: u32 = 0xffff_ffff;
    assert(bytes@.take(0) =~= Seq::<u8>::empty());
    for i in 0..bytes.len()
        invariant
            crc == crc_run(0xffff_ffff, bytes@.take(i as int)),
    {
        let ghost before = crc;
        crc = crc ^ (bytes[i] as u32);
        proof {
            lemma_nibble_table(crc);
        }
        crc = (crc >> 4) ^ NIBBLE[(crc & 0x0f) as usize];
        proof {
            lemma_nibble_table(crc);
        }
        crc = (crc >> 4) ^ NIBBLE[(crc & 0x0f) as usize];
        assert(bytes@.take(i + 1).drop_last() =~= bytes@.take(i as int));
        assert(bytes@.take(i + 1).last() == bytes@[i as int]);
        assert(crc == crc_byte(before, bytes@[i as int]));
    }
    assert(bytes@.take(bytes@.len() as int) =~= bytes@);
    !crc
}

/// Distinct registers stay distinct through four steps.
proof fn lemma_nibble_injective(x: u32, y: u32)
    requires
        x != y,
    ensures
        crc_nibble(x) != crc_nibble(y),
{
    assert(crc_nibble(x) != crc_nibble(y)) by (bit_vector)
        requires
            x != y,
    ;
}

/// Distinct registers stay distinct through the same byte, and one register
/// tells distinct bytes apart.
proof fn lemma_byte_injective(x: u32, y: u32, a: u8, b: u8)
    requires
        (x != y && a == b) || (x == y && a != b),
    ensures
        crc_byte(x, a) != crc_byte(y, b),
{
    assert(x ^ (a as u32) != y ^ (b as u32)) by (bit_vector)
        requires
            (x != y && a == b) || (x == y && a != b),
    ;
    lemma_nibble_injective(x ^ (a as u32), y ^ (b as u32));
    lemma_nibble_injective(crc_nibble(x ^ (a as u32)), crc_nibble(y ^ (b as u32)));
}

/// The register after a run differs when exactly one byte of the run does.
proof fn lemma_run_differs(crc: u32, a: Seq<u8>, b: Seq<u8>, at: int)
    requires
        a.len() == b.len(),
        0 <= at < a.len(),
        a[at] != b[at],
        forall|i: int| 0 <= i < a.len() && i != at ==> a[i] == b[i],
    ensures
        crc_run(crc, a) != crc_run(crc, b),
    decreases a.len(),
{
    if at == a.len() - 1 {
        assert(a.drop_last() =~= b.drop_last());
    } else {
        lemma_run_differs(crc, a.drop_last(), b.drop_last(), at);
    }
    lemma_byte_injective(
        crc_run(crc, a.drop_last()),
        crc_run(crc, b.drop_last()),
        a.last(),
        b.last(),
    );
}

/// Two runs of one length that differ in exactly one byte have different
/// checksums, so a flipped bit never goes unnoticed.
pub proof fn law_one_changed_byte_changes_the_checksum(a: Seq<u8>, b: Seq<u8>, at: int)
    requires
        a.len() == b.len(),
        0 <= at < a.len(),
        a[at] != b[at],
        forall|i: int| 0 <= i < a.len() && i != at ==> a[i] == b[i],
    ensures
        crc32_of(a) != crc32_of(b),
{
    lemma_run_differs(0xffff_ffff, a, b, at);
    let x = crc_run(0xffff_ffff, a);
    let y = crc_run(0xffff_ffff, b);
    assert(!x != !y) by (bit_vector)
        requires
            x != y,
    ;
}

/// FNV-1a over 32 bits: start from the offset basis; for each byte, exclusive
/// or, then multiply by the prime modulo 2^32.
pub open spec fn fnv1a(bytes: Seq<u8>) -> u32
    decreases bytes.len(),
{
    if bytes.len() == 0 {
        0x811c_9dc5
    } else {
        (((fnv1a(bytes.drop_last()) ^ (bytes.last() as u32)) as int * 0x0100_0193)
            % 0x1_0000_0000) as u32
    }
}

/// The FNV-1a hash of a run of bytes.
pub fn fnv(bytes: &[u8]) -> (hash: u32)
    ensures
        hash == fnv1a(bytes@),
{
    let mut hash: u32 = 0x811c_9dc5;
    assert(bytes@.take(0) =~= Seq::<u8>::empty());
    for i in 0..bytes.len()
        invariant
            hash == fnv1a(bytes@.take(i as int)),
    {
        hash = hash ^ (bytes[i] as u32);
        hash = hash.wrapping_mul(0x0100_0193);
        assert(bytes@.take(i + 1).drop_last() =~= bytes@.take(i as int));
    }
    assert(bytes@.take(bytes@.len() as int) =~= bytes@);
    hash
}

} // verus!
