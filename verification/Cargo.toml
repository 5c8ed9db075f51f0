[package]
name = "mexc_klines"
version = "0.1.0"
edition = "2021"
publish = false

[dependencies]
querystring = "1"
reqwest = { version = "0.11", features = ["json"] }
serde = { version = "1", features = ["derive"] }
serde_json = "1"
tokio = { version = "1", features = ["macros", "rt-multi-thread"] }
tungstenite = { version = "0.21", features = ["native-tls"] }
url = "2"
