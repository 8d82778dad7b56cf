[package]
name = "worktable_vec"
version = "0.1.0"
edition = "2021"
publish = false

[dependencies]
arctic-wt = "=0.1.12"
congee = "=0.4.1"
embedded-io = { version = "=0.7.1", features = ["alloc"] }
rkyv = "=0.8.18"
WorkTablesIndex = { version = "=0.0.15", features = ["concurrent"] }
