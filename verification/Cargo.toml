[package]
name = "msbt_codec"
version = "0.1.0"
edition = "2021"
publish = false

[dependencies]
glob = "*"
rayon = "*"
serde = { version = "*", features = ["derive"] }
serde_json = "*"
serde_yaml = "*"
