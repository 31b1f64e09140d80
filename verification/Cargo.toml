[package]
name = "tagwatch"
version = "0.1.0"
edition = "2021"
publish = false

[dependencies]
serde = { version = "1", features = ["derive"] }
serde_json = "1"
serde_with = "*"
figment = { version = "*", features = ["toml"] }
toml = "*"
log = "0.4"
env_logger = "*"
tokio = { version = "1", features = ["rt-multi-thread", "macros"] }
reqwest = { version = "*", default-features = false, features = ["json"] }
