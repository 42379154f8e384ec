[package]
name = "nanocached"
version = "0.1.0"
edition = "2021"
publish = false

[dependencies]
bytes = "1"
rustls = { version = "0.23", default-features = false, features = ["std", "tls12", "ring"] }
rustls-pemfile = "2"
tokio = { version = "1", features = ["full"] }
tokio-rustls = { version = "0.26", default-features = false, features = ["tls12", "ring"] }
uuid = { version = "1", features = ["v4"] }
