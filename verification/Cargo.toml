[package]
name = "lcs_png_diff"
version = "0.1.0"
edition = "2021"
publish = false

[dependencies]
base64 = "0.13"
image = { version = "0.24", default-features = false, features = ["png"] }
clap = { version = "3", features = ["derive"] }
rusty_pool = "0.7"
serde = { version = "1", features = ["derive"] }
serde_json = "1"
