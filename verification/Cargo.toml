[package]
name = "tongrams"
version = "0.1.0"
edition = "2021"
publish = false

[dependencies]
sucds = "0.4"
yada = "0.5"
flate2 = "1"
