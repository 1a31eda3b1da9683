[package]
name = "zip_rebuild"
version = "0.1.0"
edition = "2021"
publish = false

[dependencies]
blake3 = "*"
clap = { version = "*", features = ["derive"] }
glob = "*"
preflate-bindings = "*"
serde = { version = "*", features = ["derive"] }
serde_json = "*"
zip = "*"
