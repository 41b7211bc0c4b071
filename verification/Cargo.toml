[package]
name = "nbody"
version = "0.1.0"
edition = "2021"
publish = false

[dependencies]
rayon = "=1.12.0"
itertools = "=0.10.5"
const_soft_float = "=0.1.4"
