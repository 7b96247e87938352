[package]
name = "solana_validator"
version = "0.1.0"
edition = "2021"
publish = false

[dependencies]
bincode = "1"
byte-unit = "3"
byteorder = "1"
clap = "3"
crossbeam-channel = "0.5"
crossbeam-skiplist = "0.1"
dashmap = "4"
dirs-next = "2"
histogram = "0.6"
log = "0.4"
prost = "0.11"
quinn = "0.9"
rand = "0.7"
rand_chacha = "0.2"
rocksdb = "0.12"
serde = { version = "1", features = ["derive"] }
serde_json = "1"
solana_rbpf = "0.2"
thiserror = "1"
tiny-bip39 = "0.8"
tokio = { version = "1", features = ["rt", "time", "macros"] }
