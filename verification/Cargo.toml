[package]
name = "go_elim"
version = "0.1.0"
edition = "2021"
publish = false

[dependencies]
statrs = "=0.19.1"
faer = "=0.21.9"
rand = "=0.10.3"
rayon = "=1.12.0"
