[package]
name = "p1689"
version = "0.1.0"
edition = "2021"
publish = false

[dependencies]
memchr = "2"
monostate = "0.1"
cc = "1"
flume = "0.11"
futures-core = "0.3"
futures-sink = "0.3"
memmap2 = "0.9"
qcell = "0.5"
serde = { version = "1", features = ["derive"] }
serde_json = "1"
rand = "0.8"
rand_chacha = "0.3"
fake = "2"
petgraph = "0.6"
arbitrary = "1"
cargo_metadata = "0.18"
