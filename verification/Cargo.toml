[package]
name = "cardstore"
version = "0.1.0"
edition = "2021"
publish = false

[dependencies]
sha2 = "0.10"
redb = "1"
hyper = { version = "1", features = ["server", "http1"] }
http-body-util = "0.1"
tokio = { version = "1", features = ["rt-multi-thread", "sync"] }
serde = { version = "1", features = ["derive"] }
serde_json = "1"
thiserror = "1"
