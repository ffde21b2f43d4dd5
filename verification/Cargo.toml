[package]
name = "dry_core"
version = "0.1.0"
edition = "2021"
publish = false

[dependencies]
askama = "*"
base64 = "*"
clap = { version = "4", features = ["derive"] }
clap_complete = "4"
comfy-table = "*"
documented = "*"
ignore = "*"
schemars = "*"
serde = { version = "1", features = ["derive"] }
serde_json = "1"
static_assertions = "1"
thiserror = "*"
toml = "*"
toml_edit = "*"
