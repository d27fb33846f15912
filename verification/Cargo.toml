[package]
name = "anonymask"
version = "0.1.0"
edition = "2021"
publish = false

[dependencies]
regex = "1"
uuid = { version = "1", features = ["v4"] }
serde = { version = "1", features = ["derive"] }
thiserror = "1"
napi = "2"
napi-derive = "2"
pyo3 = "*"
