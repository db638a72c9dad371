[package]
name = "iuretranscribe"
version = "0.1.0"
edition = "2021"
publish = false

[dependencies]
roxmltree = "0.20"
percent-encoding = "2"
url = "2"
serde = { version = "1", features = ["derive"] }
serde_json = "1"
anyhow = "1"
log = "0.4"
chrono = "0.4"
dirs = "5"
hound = "3.5"
symphonia = { version = "0.5", features = ["all"] }
reqwest = { version = "0.12", default-features = false, features = ["rustls-tls", "stream", "json"] }
tokio = { version = "1", features = ["fs", "io-util", "rt"] }
futures-util = "0.3"
bytes = "1"
