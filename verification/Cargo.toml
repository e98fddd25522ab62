[package]
name = "did_you_go_hot"
version = "0.1.0"
edition = "2021"
publish = false

[dependencies]
smallvec = "1"
tinyvec = { version = "1", features = ["alloc"] }
bumpalo = "3"
rustc-hash = "2"
petgraph = "0.8"
