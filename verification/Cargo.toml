[package]
name = "xoroshiro_distance"
version = "0.1.0"
edition = "2021"
publish = false

[dependencies]
num-bigint = "0.4"
num-traits = "0.2"
ndarray = "0.15"
rand = "0.7"
rayon = "1"
