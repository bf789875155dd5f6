[package]
name = "girsa"
version = "0.5.4"
edition = "2021"
publish = false

[dependencies]
getrandom = "0.3"
serde = { version = "1", features = ["derive"] }
serde_json = "1"
thiserror = "2"
tiny_http = "0.12"
