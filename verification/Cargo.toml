[package]
name = "rustrospective"
version = "0.1.0"
edition = "2021"
publish = false

[dependencies]
anyhow = "*"
clap = { version = "*", features = ["derive"] }
jclassfile = "*"
serde_json = "*"
serde-sarif = "*"
zip = { version = "*", default-features = false, features = ["deflate"] }
