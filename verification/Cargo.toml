[package]
name = "consensus_graph"
version = "0.1.0"
edition = "2021"
publish = false

[dependencies]
hibitset = { version = "0.6", default-features = false }
keccak-hash = "*"
parking_lot = "*"
slab = "0.4"

[dev-dependencies]
rustc-hex = "2"
