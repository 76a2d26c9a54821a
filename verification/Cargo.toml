[package]
name = "json_packer"
version = "0.1.0"
edition = "2021"
publish = false

[dependencies]
base64 = "0.22"
serde_json = "1"
clap = { version = "4", features = ["derive"] }
hex = "0.4"
rayon = "1"
indicatif = "0.17"
thiserror = "2"
