[package]
name = "cross_stitch_solver"
version = "0.1.0"
edition = "2021"
publish = false

[dependencies]
prime_factorization = "=1.0.5"
svg = "=0.18.0"
itertools = "=0.15.0"
num-traits = "=0.2.19"
num-derive = "=0.4.2"
iced = { version = "0.13", default-features = false, features = ["canvas", "tiny-skia"] }
