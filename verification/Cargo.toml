[package]
name = "dl_authorize"
version = "0.1.0"
edition = "2021"
publish = false

[dependencies]
serde = { version = "*", features = ["derive"] }
serde_json = "*"
ic-cdk = "*"
ic-stable-structures = "*"
