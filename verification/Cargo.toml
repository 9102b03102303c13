[package]
name = "encodesync"
version = "0.1.0"
edition = "2021"
publish = false

[dependencies]
clap = { version = "*", features = ["derive"] }
console = "*"
dialoguer = "*"
json_comments = "*"
lofty = "*"
serde = { version = "*", features = ["derive"] }
serde_json = "*"
serde_with = "*"
