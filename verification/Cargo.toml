[package]
name = "asyncband"
version = "0.1.0"
edition = "2021"
publish = false

[dependencies]
divan = "0.1"
tokio = { version = "1", default-features = false, features = ["sync"] }
