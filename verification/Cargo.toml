[package]
name = "matrix_decomp"
version = "0.1.0"
edition = "2021"

[dependencies]
num-bigint = "*"
