[package]
name = "flatzinc_serde"
version = "0.5.0"
edition = "2021"
publish = false

[dependencies]
rangelist = "*"
serde = { version = "1", features = ["derive"] }
serde_json = "1"
