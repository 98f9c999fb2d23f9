[package]
name = "xprec"
version = "0.1.0"
edition = "2021"
publish = false

[dependencies]
approx = "0.5"
libm = "0.2"
num-traits = "0.2"
