[package]
name = "finmetrics"
version = "0.1.0"
edition = "2021"
publish = false

[dependencies]
rayon = "1"
rand = "0.8"
rand_distr = "0.4"
