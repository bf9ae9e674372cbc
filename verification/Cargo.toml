[package]
name = "is_online"
version = "0.1.0"
edition = "2021"

[dependencies]
ipnet = "*"
clap = { version = "*", features = ["derive", "env"] }
rayon = "*"
