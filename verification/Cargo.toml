[package]
name = "audi8"
version = "0.1.0"
edition = "2021"
publish = false

[dependencies]
actix-cors = "*"
actix-web = "*"
clap = { version = "*", features = ["derive"] }
env_logger = "*"
hound = "=3.5.1"
rubato = "=0.14.1"
serde = { version = "*", features = ["derive"] }
