[package]
name = "goobus"
version = "0.1.0"
edition = "2021"
publish = false

[dependencies]
alot = "0.3"
anyhow = "1"
intentional = "0.1"
pot = "3"
serde = { version = "1", features = ["derive"] }
serde_bytes = "0.11"
tokio = { version = "1", features = ["full"] }
