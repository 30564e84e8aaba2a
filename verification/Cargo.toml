[package]
name = "nucleon"
version = "0.1.0"
edition = "2021"
publish = false

[dependencies]
half = "=2.7.1"
minijinja = { version = "=2.24.0", features = ["loader", "json"] }
minijinja-contrib = { version = "=2.24.0", features = ["pycompat"] }
tokenizers = { version = "=0.23.2", default-features = false, features = ["fancy-regex"] }
mlx-rs = "=0.33.0"
