[package]
name = "protogalaxy"
version = "0.1.0"
edition = "2021"
publish = false

[dependencies]
ff = "=0.13.1"
rand_core = "=0.6.4"
rayon = "=1.12.0"

[dev-dependencies]
rand_chacha = "0.3"
