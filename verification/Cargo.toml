[package]
name = "hector_build"
version = "0.1.0"
edition = "2021"
publish = false

[dependencies]
flate2 = "1"
tar = "0.4"
walkdir = "2"
axum = "*"
tokio = { version = "1", features = ["macros", "rt-multi-thread", "net"] }
