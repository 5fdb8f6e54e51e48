[package]
name = "ast_engine"
version = "0.1.0"
edition = "2021"
publish = false

[dependencies]
oxc = { version = "=0.143.0", features = ["semantic", "ast_visit"] }
serde = { version = "=1.0.229", features = ["derive"] }
serde_json = "=1.0.154"
serde_yaml = "=0.9.34+deprecated"
walkdir = "=2.5.0"
clap = { version = "=4.6.7", features = ["derive"] }
