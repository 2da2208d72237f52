[package]
name = "fixed_fft"
version = "0.1.0"
edition = "2021"
publish = false

[dependencies]
num-complex = "0.4"
libm = "0.2"
