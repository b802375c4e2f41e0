[package]
name = "snapseg"
version = "0.1.0"
edition = "2021"
publish = false

[dependencies]
sha2 = "*"
chrono = { version = "*", default-features = false, features = ["clock"] }
directories = "*"
serde = { version = "*", features = ["derive"] }
serde_json = "*"
toml = "*"
image = { version = "*", default-features = false, features = ["png"] }
ndarray = "*"
clap = { version = "*", features = ["derive"] }
anyhow = "*"
thiserror = "*"
tracing = "*"
