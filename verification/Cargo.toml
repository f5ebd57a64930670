[package]
name = "lau_complex_analysis"
version = "0.1.0"
edition = "2021"
publish = false

[dependencies]
num-complex = { version = "0.4", features = ["serde"] }
serde = { version = "1", features = ["derive"] }
