[package]
name = "qtcloud_devops_cli"
version = "0.1.0"
edition = "2021"
publish = false

[dependencies]
semver = "1"
serde = { version = "1", features = ["derive"] }
serde_json = "1"
git2 = { version = "0.19", default-features = false }
jiff = "0.2"
thiserror = "2"
clap = { version = "4", features = ["derive"] }
regex = "1"
