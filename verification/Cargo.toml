[package]
name = "mcd"
version = "0.1.0"
edition = "2021"
publish = false

[dependencies]
sled = "0.34"
rand = "0.8"
axum = "0.6"
tokio = { version = "1", features = ["macros", "rt-multi-thread"] }
