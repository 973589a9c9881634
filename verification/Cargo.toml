[package]
name = "pgr"
version = "0.1.0"
edition = "2021"
publish = false

[dependencies]
anyhow = "=1.0.104"
serde = { version = "=1.0.229", features = ["derive"] }
tokio = { version = "=1.53.2", features = ["full"] }
tokio-postgres = "=0.7.18"
warp = { version = "=0.4.3", features = ["server"] }
