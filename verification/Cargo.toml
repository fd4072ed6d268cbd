[package]
name = "jwalk"
version = "0.1.0"
edition = "2021"
publish = false

[dependencies]
alphanumeric-sort = "*"
crossbeam = "*"
im = "*"
rayon = "*"
