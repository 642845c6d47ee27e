[package]
name = "transcribe"
version = "0.4.0"
edition = "2021"
publish = false

[dependencies]
anyhow = "1"
chrono = "0.4"
clap = { version = "4", features = ["derive"] }
cpal = "0.17"
llama-cpp-2 = { version = "*", default-features = false }
log = "0.4"
ndarray = "*"
ort = { version = "2.0.0-rc.10", default-features = false, features = ["std", "ndarray"] }
pyannote-rs = "*"
rubato = "*"
serde = { version = "1", features = ["derive"] }
serde_json = "1"
symphonia = { version = "*", features = ["all"] }
transcribe-cpp = "*"
ureq = "*"
whisper-rs = { version = "0.16", default-features = false }
