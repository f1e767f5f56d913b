[package]
name = "offsetting"
version = "0.1.0"
edition = "2021"
publish = false

[dependencies]
aes = "0.8"
ctr = "0.9"
flate2 = "1"
md-5 = "0.10"
murmur3 = "0.5"
jenkins_hash = "*"
indexmap = { version = "2", features = ["serde"] }
uuid = { version = "1", features = ["serde"] }
anyhow = "1"
clap = { version = "4", features = ["derive"] }
serde = { version = "1", features = ["derive"] }
serde_json = "1"
serde_yaml = "0.9"
base64 = "0.21"
walkdir = "2"
