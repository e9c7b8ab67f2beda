[package]
name = "bolt"
version = "0.1.0"
edition = "2021"
publish = false

[dependencies]
tinyvec = "1"
serde = { version = "1", features = ["derive"] }
thiserror = "1"
