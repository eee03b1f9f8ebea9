[package]
name = "lambda_core"
version = "0.1.0"
edition = "2021"
publish = false

[dependencies]
clap = "2"
colored = "1"
pest = "2"
pest_derive = "2"
