[package]
name = "cobble"
version = "0.1.0"
edition = "2021"
publish = false

[dependencies]
toml = "0.8"
glob = "0.3"
anyhow = "1"
clap = { version = "4", features = ["derive"] }
dunce = "1"
serde = { version = "1", features = ["derive"] }
serde_json = "1"
lmdb = "0.8"
mlua = { version = "0.9", features = ["lua54", "vendored", "serialize"] }
