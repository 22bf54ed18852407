[package]
name = "tmnn"
version = "0.1.0"
edition = "2021"
publish = false

[dependencies]
sqlx = { version = "0.8", default-features = false }
thiserror = "1"
tracing = "0.1"
