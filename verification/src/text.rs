//! Numbers as text.

use vstd::prelude::*;
use vstd::string::StringExecFns;

verus! {

/// The digit of this value, in any base up to sixteen.
pub open spec fn digit(d: int) -> char {
    if d <= 0 {
        '0'
    } else if d == 1 {
        '1'
    } else if d == 2 {
        '2'
    } else if d == 3 {
        '3'
    } else if d == 4 {
        '4'
    } else if d == 5 {
        '5'
    } else if d == 6 {
        '6'
    } else if d == 7 {
        '7'
    } else if d == 8 {
        '8'
    } else if d == 9 {
        '9'
    } else if d == 10 {
        'a'
    } else if d == 11 {
        'b'
    } else if d == 12 {
        'c'
    } else if d == 13 {
        'd'
    } else if d == 14 {
        'e'
    } else {
        'f'
    }
}

/// A number in base ten.
pub open spec fn decimal(n: nat) -> Seq<char>
    decreases n,
{
    if n < 10 {
        seq![digit(n as int)]
    } else {
        decimal(n / 10).push(digit((n % 10) as int))
    }
}

/// The last `digits` digits of a number in base sixteen.
pub open spec fn hex_digits(n: nat, digits: nat) -> Seq<char>
    decreases digits,
{
    if digits == 0 {
        Seq::empty()
    } else {
        hex_digits(n / 16, (digits - 1) as nat).push(digit((n % 16) as int))
    }
}

/// A word in base sixteen: `0x` and eight digits.
pub open spec fn hex_word(word: u32) -> Seq<char> {
    "0x"@ + hex_digits(word as nat, 8)
}

fn digit_text(d: u8) -> (text: &'static str)
    requires
        d < 16,
    ensures
        text@ == seq![digit(d as int)],
{
    proof {
        reveal_strlit("0");
        reveal_strlit("1");
        reveal_strlit("2");
        reveal_strlit("3");
        reveal_strlit("4");
        reveal_strlit("5");
        reveal_strlit("6");
        reveal_strlit("7");
        reveal_strlit("8");
        reveal_strlit("9");
        reveal_strlit("a");
        reveal_strlit("b");
        reveal_strlit("c");
        reveal_strlit("d");
        reveal_strlit("e");
        reveal_strlit("f");
    }
    let text = match d {
        0 => "0",
        1 => "1",
        2 => "2",
        3 => "3",
        4 => "4",
        5 => "5",
        6 => "6",
        7 => "7",
        8 => "8",
        9 => "9",
        10 => "a",
        11 => "b",
        12 => "c",
        13 => "d",
        14 => "e",
        _ => "f",
    };
    assert(text@ =~= seq![digit(d as int)]);
    text
}

/// Append a number in base ten.
pub fn push_decimal(out: &mut String, n: u64)
    ensures
        final(out)@ == old(out)@ + decimal(n as nat),
    decreases n,
{
    if n >= 10 {
        push_decimal(out, n / 10);
    }
    out.append(digit_text((n % 10) as u8));
    assert(out@ =~= old(out)@ + decimal(n as nat));
}

fn push_hex_digits(out: &mut String, n: u32, digits: u8)
    ensures
        final(out)@ == old(out)@ + hex_digits(n as nat, digits as nat),
    decreases digits,
{
    if digits > 0 {
        push_hex_digits(out, n / 16, digits - 1);
        out.append(digit_text((n % 16) as u8));
    }
    assert(out@ =~= old(out)@ + hex_digits(n as nat, digits as nat));
}

/// Append a word in base sixteen: `0x` and eight digits.
pub fn push_hex_word(out: &mut String, word: u32)
    ensures
        final(out)@ == old(out)@ + hex_word(word),
{
    out.append("0x");
    push_hex_digits(out, word, 8);
    assert(out@ =~= old(out)@ + hex_word(word));
}

/// How a table shows itself: its name and how many rows it has.
pub open spec fn table_text(name: Seq<char>, rows: nat) -> Seq<char> {
    name + " { rows: "@ + decimal(rows) + ", .. }"@
}

/// How a table shows itself.
pub fn show_table(name: &str, rows: usize) -> (text: String)
    ensures
        text@ == table_text(name@, rows as nat),
{
    let mut text = String::from_str(name);
    text.append(" { rows: ");
    push_decimal(&mut text, rows as u64);
    text.append(", .. }");
    text
}

} // verus!
