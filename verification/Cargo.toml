[package]
name = "unit_calc"
version = "0.1.0"
edition = "2021"
publish = false

[dependencies]
value_unit = "=0.1.3"
