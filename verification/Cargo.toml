[package]
name = "porecrusher"
version = "0.1.0"
edition = "2021"
publish = false

[dependencies]
rand = "0.9"
rayon = "1"
console = "0.15"
indicatif = "0.17"
num = "0.4"
serde = { version = "1", features = ["derive"] }
toml = "0.8"
