[package]
name = "commentor"
version = "0.1.0"
edition = "2021"
publish = false

[dependencies]
anyhow = "*"
clap = { version = "*", features = ["derive"] }
directories = "*"
log = "*"
reqwest = { version = "*", default-features = false, features = ["blocking"] }
serde_json = "*"
simple_logger = "*"
