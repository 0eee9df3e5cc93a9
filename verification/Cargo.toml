[package]
name = "basileus"
version = "0.1.0"
edition = "2021"
publish = false

[dependencies]
base64 = "*"
getrandom = "*"
rust-argon2 = "*"
serde = { version = "*", features = ["derive"] }
sha2 = "*"
sqlx = { version = "*", default-features = false, features = ["sqlite", "runtime-tokio"] }
thiserror = "*"
tracing = "*"
