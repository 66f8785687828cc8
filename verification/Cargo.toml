[package]
name = "lucus"
version = "0.1.0"
edition = "2021"
publish = false

[dependencies]
anyhow = "1"
clap = { version = "4", features = ["derive"] }
directories = "5"
git2 = { version = "0.20", default-features = false }
owo-colors = "4"
serde = { version = "1", features = ["derive"] }
toml = "0.8"
