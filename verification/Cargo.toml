[package]
name = "pupi"
version = "0.1.0"
edition = "2021"
publish = false

[dependencies]
once_cell = "*"
schemars = "*"
serde = { version = "*", features = ["derive"] }
serde_json = "*"
serde_yml = "*"
toml = "*"
