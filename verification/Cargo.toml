[package]
name = "polyops"
version = "0.1.0"
edition = "2021"
publish = false

[dependencies]
geo-types = "0.7"
serde = { version = "1", features = ["derive"] }
napi = "2"
napi-derive = "2"

[dev-dependencies]
serde_json = "1"
