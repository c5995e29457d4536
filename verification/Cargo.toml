[package]
name = "whisper_diarize_rs"
version = "0.1.0"
edition = "2021"
publish = false

[dependencies]
eyre = "0.6"
futures = "0.3"
hf-hub = { version = "0.4", default-features = false, features = ["ureq"] }
once_cell = "1"
pyannote-rs = "*"
reqwest = { version = "0.12", default-features = false }
serde = { version = "1", features = ["derive"] }
serde_json = "1"
tokio = { version = "1", features = ["time", "rt", "macros"] }
tokio-util = "0.7"
tracing = "0.1"
whisper-rs = "*"
zip = { version = "2", default-features = false }
