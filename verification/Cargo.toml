[package]
name = "frouter"
version = "0.1.0"
edition = "2021"
publish = false

[dependencies]
sha2 = "*"
chrono = "*"
notify = "*"
dirs = "*"
toml = "*"
serde = { version = "*", features = ["derive"] }
serde_json = "*"
duckdb = { version = "*", default-features = false }
