[package]
name = "brain"
version = "0.1.0"
edition = "2021"
publish = false

[dependencies]
rand = { version = "*", features = ["small_rng"] }
snap = "*"
serde = { version = "*", features = ["derive"] }
serde_json = "*"
toml = "*"
tiny_http = "*"
