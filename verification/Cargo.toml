[package]
name = "alerter"
version = "0.1.0"
edition = "2021"
publish = false

[dependencies]
anyhow = "1"
binance = "*"
clap = "4"
rodio = "*"
