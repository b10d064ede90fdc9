[package]
name = "monitor"
version = "0.1.0"
edition = "2021"
publish = false

[dependencies]
base64 = "=0.13.1"
bytes = "1"
chrono = "=0.4.45"
clap = { version = "3", features = ["derive"] }
futures-util = "0.3"
http = "0.2"
rumqttc = "*"
rusqlite = { version = "=0.40.2", features = ["bundled", "fallible_uint"] }
rusty_ulid = "=2.0.1"
serde = { version = "1", features = ["derive"] }
serde_json = "1"
tokio = { version = "1", features = ["full"] }
tokio-util = "0.7"
url = "2"
warp = "0.3"
