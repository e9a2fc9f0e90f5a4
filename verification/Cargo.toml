[package]
name = "aulua"
version = "0.1.0"
edition = "2021"
publish = false

[dependencies]
anyhow = "1"
clap = { version = "4", features = ["derive"] }
serde = { version = "1", features = ["derive"] }
serde_yaml_ng = "*"
serde_json = "1"
schemars = "*"
thiserror = "*"
zip = { version = "*", default-features = false, features = ["deflate"] }

[dev-dependencies]
regex = "1"
