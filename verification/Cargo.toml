[package]
name = "dpetoolbox"
version = "2.2.0"
edition = "2021"
publish = false

[dependencies]
regex = "1"
uuid = { version = "1", features = ["v4"] }
chrono = "0.4"
anyhow = "1"
colored = "2"
serde = { version = "1", features = ["derive"] }
serde_json = "1"
tokio = { version = "1", features = ["full"] }
axum = "0.8"
tower-http = { version = "0.6", features = ["cors"] }
parking_lot = "0.12"
futures = "0.3"
tokio-stream = "0.1"
mime_guess = "2"
clap = { version = "4", features = ["derive"] }
clap_complete = "4"
dialoguer = "0.11"
crossterm = "*"
indicatif = "0.17"
dirs = "*"
arboard = "3"
reqwest = { version = "0.12", default-features = false, features = ["json"] }
zip = { version = "*", default-features = false, features = ["deflate"] }
