[package]
name = "mini_lsm"
version = "0.1.0"
edition = "2021"
publish = false

[dependencies]
anyhow = "1"
bitvec = "1"
clap = { version = "4", features = ["derive"] }
crossbeam-channel = "0.5"
crossbeam-skiplist = "0.1"
moka = { version = "0.12", features = ["sync"] }
shlex = "1"
xxhash-rust = { version = "0.8", features = ["xxh3"] }
