[package]
name = "barustenberg"
version = "0.1.0"
edition = "2021"
publish = false

[dependencies]
ark-ff = "=0.4.2"
ark-bn254 = "=0.4.0"
