[package]
name = "spark_matcher"
version = "0.1.0"
edition = "2021"
publish = false

[dependencies]
chrono = "0.4"
tokio = { version = "1", features = ["full"] }
tokio-tungstenite = "*"
futures-util = "0.3"
url = "2"
serde = { version = "1", features = ["derive"] }
serde_json = "1"
anyhow = "1"
thiserror = "1"
log = "0.4"
fern = "0.6"
dotenv = "0.15"
hex = "0.4"
rand = "0.8"
rand_chacha = "0.3"
rand_core = "0.6"
