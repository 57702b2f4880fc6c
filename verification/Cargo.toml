[package]
name = "hnu_algo"
version = "0.1.0"
edition = "2021"
publish = false

[dependencies]
rustc-hash = "*"
ndarray = "*"
serde = { version = "*", features = ["derive"] }
serde_json = "*"
jieba-rs = "*"
