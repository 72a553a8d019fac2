[package]
name = "ferris_chat"
version = "0.1.0"
edition = "2021"
publish = false

[dependencies]
oorandom = "*"
censor = "*"
tungstenite = "*"
tokio = { version = "*", features = ["rt-multi-thread", "net", "time", "sync"] }
tokio-tungstenite = "*"
futures-util = "*"
