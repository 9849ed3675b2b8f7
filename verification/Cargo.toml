[package]
name = "rns_ring"
version = "0.1.0"
edition = "2021"
publish = false

[dependencies]
num-bigint = "0.4"
rand = "0.8"
ndarray = "0.15"
num-prime = "0.4"
