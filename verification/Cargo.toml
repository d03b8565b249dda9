[package]
name = "cli_project_manager"
version = "0.1.0"
edition = "2021"
publish = false

[dependencies]
clap = { version = "*", features = ["cargo"] }
dirs = "*"
inquire = "*"
serde = { version = "*", features = ["derive"] }
serde_json = "*"
time = "*"
