[package]
name = "depgraph"
version = "0.1.0"
edition = "2021"
publish = false

[dependencies]
anyhow = "*"
clap = "2"
env_logger = "*"
handlebars = "*"
hex = "*"
log = "*"
regex = "*"
serde = { version = "*", features = ["derive"] }
serde_json = "*"
sha2 = "*"
shell-words = "*"
thiserror = "*"
