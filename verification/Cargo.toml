[package]
name = "zqlite-rs"
version = "0.1.0"
edition = "2021"
publish = false

[dependencies]
serde = { version = "1", features = ["derive"] }
serde_json = "1"
rusqlite = { version = "*", features = ["bundled"] }
base64 = "*"
rayon = "1"
napi = "*"
napi-derive = "*"
