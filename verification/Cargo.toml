[package]
name = "fractal_gateway"
version = "0.1.0"
edition = "2021"
publish = false

[dependencies]
wireguard-keys = "*"
base32 = "*"
ipnet = "*"
url = "*"
serde = { version = "*", features = ["derive"] }
serde_json = "*"
tokio = { version = "*", features = ["full"] }
tokio-tungstenite = "*"
futures = "*"
anyhow = "*"
thiserror = "*"
