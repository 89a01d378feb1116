[package]
name = "ergvein_filters"
version = "0.1.0"
edition = "2021"

[dependencies]
bitcoin = "*"
ergo-lib = "*"
ergotree-ir = "*"
sigma-ser = "*"
