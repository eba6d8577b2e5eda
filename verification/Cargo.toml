[package]
name = "buddhabrot"
version = "0.1.0"
edition = "2021"
publish = false

[dependencies]
image = { version = "0.24", default-features = false, features = ["png"] }
num-complex = { version = "0.4", features = ["rand"] }
rand = { version = "0.8", features = ["small_rng"] }
rand_distr = "0.4"
