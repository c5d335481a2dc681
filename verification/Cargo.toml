[package]
name = "tax_calculator"
version = "0.1.0"
edition = "2021"
publish = false

[dependencies]
num-format = "0.4"
lazy_static = "1"
structopt = "0.3"
