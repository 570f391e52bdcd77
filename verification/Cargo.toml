[package]
name = "rbs"
version = "0.1.0"
edition = "2021"
publish = false

[dependencies]
ollama-rs = "0.2"
hf-hub = "0.3"
rayon = "1"
serde = { version = "1", features = ["derive"] }
serde_json = "1"
