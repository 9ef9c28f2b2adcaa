[package]
name = "schema_wizard"
version = "0.1.0"
edition = "2021"
publish = false

[dependencies]
clap = { version = "*", features = ["derive"] }
convert_case = "*"
serde = { version = "*", features = ["derive"] }
serde_json = "*"
