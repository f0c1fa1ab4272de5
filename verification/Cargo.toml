[package]
name = "simplehf"
version = "0.2.0"
edition = "2021"
publish = false

[dependencies]
futures-util = "0.3"
gtk4 = { version = "0.9", features = ["v4_6"] }
libadwaita = { version = "0.7", features = ["v1_1"] }
reqwest = { version = "0.12", default-features = false, features = ["json", "rustls-tls", "stream"] }
serde = { version = "1", features = ["derive"] }
serde_json = "1"
tokio = { version = "1", features = ["full"] }
urlencoding = "2"
