[package]
name = "express_trainer"
version = "0.1.0"
edition = "2021"
publish = false

[dependencies]
serde = { version = "=1.0.229", features = ["derive"] }
serde_json = "=1.0.154"
chrono = "=0.4.45"
keyring = { version = "=3.6.3", features = ["windows-native", "apple-native", "linux-native"] }
reqwest = { version = "=0.12.28", features = ["stream"] }
futures-util = "=0.3.34"
tar = "=0.4.46"
bzip2 = "=0.4.4"
symphonia = { version = "=0.5.5", features = ["mp3", "aac", "isomp4", "flac"] }
cpal = "=0.15.3"
sherpa-onnx = "=1.13.8"
