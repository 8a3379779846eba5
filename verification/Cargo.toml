[package]
name = "oxiz-solver"
version = "0.1.0"
edition = "2021"
publish = false

[dependencies]
num-rational = "=0.4.2"
num-traits = "=0.2.19"
rustc-hash = "=2.1.3"
smallvec = "=1.16.4"
rayon = "=1.12.0"
