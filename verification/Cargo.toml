[package]
name = "dotty"
version = "0.1.0"
edition = "2021"
publish = false

[dependencies]
anyhow = "*"
clap = { version = "*", features = ["derive"] }
colored = "*"
env_logger = "*"
gethostname = "*"
git2 = { version = "=0.21.0", default-features = false }
inquire = { version = "*", features = ["editor"] }
log = "*"
pathdiff = "*"
serde = { version = "*", features = ["derive"] }
serde_json = "*"
tera = "=2.4.0"
walkdir = "*"
