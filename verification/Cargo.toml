[package]
name = "donezo"
version = "0.1.0"
edition = "2021"
publish = false

[dependencies]
argon2 = "0.5"
rand = "0.9"
axum = "0.8"
axum-extra = { version = "*", features = ["cookie"] }
serde = { version = "1", features = ["derive"] }
serde_json = "1"
time = "0.3"
tokio = { version = "1", features = ["rt-multi-thread", "net", "macros"] }
