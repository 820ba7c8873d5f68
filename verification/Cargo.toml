[package]
name = "go_webui"
version = "0.1.0"
edition = "2021"
publish = false

[dependencies]
russh = "0.45"
russh-keys = "0.45"
tokio = { version = "1", features = ["full"] }
serde = { version = "1", features = ["derive"] }
serde_json = "1"
uuid = { version = "1", features = ["v4"] }
dirs = "5"
thiserror = "1"
async-trait = "0.1"
