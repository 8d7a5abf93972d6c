[package]
name = "addressables_rs"
version = "0.1.0"
edition = "2021"
publish = false

[dependencies]
base64 = "0.21"
binrw = "0.11"
camino = "1"
dialoguer = { version = "0.10", features = ["fuzzy-select"] }
rand = "0.8"
serde = { version = "1", features = ["derive"] }
serde_json = "1"
structopt = "0.3"
thiserror = "1"
toml = "0.7"
