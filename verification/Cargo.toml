[package]
name = "git_append"
version = "0.1.0"
edition = "2021"
publish = false

[dependencies]
age = "0.11"
clap = { version = "4", features = ["derive"] }
git2 = "*"
glob = "0.3"
log = "0.4"
regex = "1"
serde = { version = "1", features = ["derive"] }
serde_json = "1"
