[package]
name = "tax_lots"
version = "0.1.0"
edition = "2021"
publish = false

[dependencies]
chrono = "0.4"
chrono-tz = "*"
clap = "2"
dotenv = "0.15"
lazy_static = "1"
rand = "0.8"
regex = "1"
