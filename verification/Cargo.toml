[package]
name = "ime"
version = "0.1.0"
edition = "2021"
publish = false

[dependencies]
rmpv = "*"
dirs = "*"
plist = "*"
serde = { version = "*", features = ["derive"] }
serde_json = "*"
