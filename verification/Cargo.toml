[package]
name = "travel_ura"
version = "0.1.0"
edition = "2021"
publish = false

[dependencies]
chrono = "0.4"
clap = "2"
hyper = "0.10"
serde_json = "1"
