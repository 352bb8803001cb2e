[package]
name = "reduce_recipe"
version = "0.1.0"
edition = "2021"
publish = false

[dependencies]
toml_edit = "*"
cargo-chef = "*"
serde_json = "*"
anyhow = "*"
clap = { version = "*", features = ["derive"] }
