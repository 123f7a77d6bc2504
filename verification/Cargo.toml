[package]
name = "lockguard"
version = "0.1.4"
edition = "2021"
publish = false

[dependencies]
composer-semver = "*"
reqwest = { version = "0.12", default-features = false, features = ["rustls-tls"] }
serde = { version = "1", features = ["derive"] }
serde_json = "1"
thiserror = "*"
