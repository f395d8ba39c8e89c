[package]
name = "service_bus"
version = "0.1.0"
edition = "2021"
publish = false

[dependencies]
actix = "0.13"
bytes = "1"
failure = "0.1"
futures = "0.3"
log = "0.4"
prost = { version = "0.13", default-features = false, features = ["std"] }
tokio = { version = "1", features = ["net", "io-util"] }
tokio-util = { version = "0.7", features = ["codec"] }
