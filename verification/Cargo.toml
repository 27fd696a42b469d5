[package]
name = "configural"
version = "0.1.0"
edition = "2021"
publish = false

[dependencies]
rayon = "1"
libm = "0.2"
