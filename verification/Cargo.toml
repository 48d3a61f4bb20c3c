[package]
name = "graph_invariants"
version = "0.1.0"
edition = "2021"
publish = false

[dependencies]
blake3 = { version = "1", features = ["pure"] }
fxhash = "0.2"
nalgebra = { version = "*", default-features = false, features = ["std"] }
