[package]
name = "unholy_force"
version = "0.1.0"
edition = "2021"
publish = false

[dependencies]
uuid = { version = "1", features = ["v7"] }
rand = "*"
thiserror = "*"
webbrowser = "*"
serde = { version = "1", features = ["derive"] }
