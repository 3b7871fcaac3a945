[package]
name = "tktts"
version = "0.1.0"
edition = "2021"
publish = false

[dependencies]
base64 = "*"
url = "*"
clap = { version = "*", features = ["derive"] }
dotenv = "*"
reqwest = { version = "*", default-features = false, features = ["json"] }
serde_json = "*"
tokio = { version = "*", features = ["rt-multi-thread", "macros"] }
