[package]
name = "thermobug"
version = "0.1.0"
edition = "2021"
publish = false

[dependencies]
actix-web = "*"
dotenv = "*"
futures = "*"
mongodb = "*"
num_cpus = "*"
serde = { version = "*", features = ["derive"] }
