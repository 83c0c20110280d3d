[package]
name = "wireguard_import"
version = "0.1.0"
edition = "2021"
publish = false

[dependencies]
anyhow = "1"
chrono = { version = "0.4", default-features = false, features = ["clock"] }
serde = { version = "1", features = ["derive"] }
serde_yaml_ng = "*"
smartstring = { version = "1", features = ["serde"] }
tokio = { version = "1", features = ["fs", "macros", "rt"] }
