[package]
name = "snark_arith"
version = "0.1.0"
edition = "2021"
publish = false

[dependencies]
ff = "0.13"
group = "0.13"
halo2curves = "*"
rayon = "1"

[dev-dependencies]
rand_core = { version = "0.6", features = ["getrandom"] }
