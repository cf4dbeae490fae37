[package]
name = "rust_script_ext"
version = "0.1.0"
edition = "2021"
publish = false

[dependencies]
csv = "*"
comfy-table = "*"
serde = { version = "*", features = ["derive"] }
serde_json = "*"
toml = "*"
