[package]
name = "modcore"
version = "0.1.0"
edition = "2021"
publish = false

[dependencies]
chrono = "*"
md5 = "*"
zip = { version = "*", default-features = false, features = ["deflate"] }

[dev-dependencies]
serde_json = "*"
