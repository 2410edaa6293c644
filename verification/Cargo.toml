[package]
name = "steno_core"
version = "0.1.0"
edition = "2021"
publish = false

[dependencies]
serde = { version = "1", features = ["derive"] }
serde_json = "1"
toml = "0.8"
thiserror = "1"
anyhow = "1"
crossbeam-channel = "0.5"
directories = "5"
enigo = "0.2"
rdev = "0.5"
