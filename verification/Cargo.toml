[package]
name = "cf-do-locator"
version = "0.1.0"
edition = "2021"
publish = false

[dependencies]
buffa = "=0.6.0"
bytes = "1"
connectrpc = { version = "=0.5.0", default-features = false }
http = "1"
http-body-util = "0.1"
serde = { version = "1", features = ["derive"] }
serde_json = "1"
tower = { version = "0.5", default-features = false }
worker = { version = "=0.8.7", features = ["http"] }
