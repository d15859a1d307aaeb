[package]
name = "netrangemerge"
version = "0.1.0"
edition = "2021"
publish = false

[dependencies]
anyhow = "*"
clap = { version = "4", features = ["derive"] }
csv = "*"
regex = "*"
reqwest = { version = "*", default-features = false, features = ["blocking"] }
rlua = "0.17"
serde = { version = "*", features = ["derive"] }
serde_json = "*"
