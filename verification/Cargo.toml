[package]
name = "vocal_sieve"
version = "0.1.0"
edition = "2021"
publish = false

[dependencies]
cpal = "0.15"
ctrlc = "3"
rustfft = "6"
serde = { version = "1", features = ["derive"] }
serde_json = "1"
