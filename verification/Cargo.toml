[package]
name = "voiceflow_core"
version = "0.1.0"
edition = "2021"
publish = false

[dependencies]
regex = "1"
serde = { version = "1", features = ["derive"] }
directories = "5"
ureq = "2"
cpal = "0.15"
