[package]
name = "envy_rs"
version = "0.1.0"
edition = "2021"
publish = false

[dependencies]
async-channel = "*"
clap = { version = "*", features = ["derive"] }
color-eyre = "*"
serde_yaml = "*"
syntect = { version = "*", default-features = false, features = ["default-fancy"] }
tokio = { version = "*", features = ["rt-multi-thread", "macros", "sync"] }
