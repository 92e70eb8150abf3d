[package]
name = "requests"
version = "0.1.0"
edition = "2021"
publish = false

[dependencies]
url = "=2.5.8"
reqwest = { version = "=0.13.5", default-features = false }
tokio = { version = "=1.53.2", features = ["rt-multi-thread", "macros", "sync", "time", "net", "io-util"] }
websocket = { version = "=0.27.1", default-features = false, features = ["sync", "sync-ssl"] }
