[package]
name = "low_samplerate_audio_classifier"
version = "0.1.0"
edition = "2021"
publish = false

[dependencies]
hound = "*"
rustfft = "*"
clap = { version = "*", features = ["derive"] }
