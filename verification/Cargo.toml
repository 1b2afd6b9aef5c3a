[package]
name = "garage_core"
version = "0.1.0"
edition = "2021"
publish = false

[dependencies]
hex = "=0.4.3"
rand = "=0.8.8"
sha2 = "=0.10.9"
serde = { version = "=1.0.229", features = ["derive"] }
rmp-serde = "=1.3.1"
hyper = { version = "=0.14.32", features = ["server", "http1", "tcp", "stream"] }
futures = "=0.3.34"
