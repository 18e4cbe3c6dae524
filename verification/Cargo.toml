[package]
name = "lambda_eval"
version = "0.1.0"
edition = "2021"
publish = false

[dependencies]
immutable-map = "*"
