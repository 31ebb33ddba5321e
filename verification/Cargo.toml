[package]
name = "covernc"
version = "0.1.0"
edition = "2021"
publish = false

[dependencies]
anyhow = "*"
clap = { version = "*", features = ["derive"] }
dotenvy = "*"
human-sort = "*"
reqwest = { version = "*", default-features = false, features = ["blocking", "json"] }
rustc_apfloat = "*"
serde_json = "*"
