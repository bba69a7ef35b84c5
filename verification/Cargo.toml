[package]
name = "simplex_oscillator"
version = "0.1.0"
edition = "2021"
publish = false

[dependencies]
opensimplex2 = "*"
