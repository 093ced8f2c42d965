[package]
name = "chathub"
version = "0.1.0"
edition = "2021"
publish = false

[dependencies]
base64 = "*"
bytes = "*"
futures-util = "*"
http-body = "*"
http-body-util = "*"
hyper = { version = "*", features = ["server", "http1"] }
hyper-tungstenite = "*"
hyper-util = { version = "*", features = ["tokio"] }
rand = "*"
tokio = { version = "*", features = ["rt-multi-thread", "macros", "sync", "time", "net", "signal", "fs", "io-util"] }

[dev-dependencies]
serde_json = "*"
