[package]
name = "pingpong"
version = "0.1.0"
edition = "2021"
publish = false

[dependencies]
anyhow = "*"
clap = { version = "*", features = ["derive"] }
dns-lookup = "*"
serde = { version = "*", features = ["derive"] }
surge-ping = "*"
tokio = { version = "*", features = ["full"] }
toml = "*"
uuid = { version = "*", features = ["v5"] }
