[package]
name = "ambient"
version = "0.1.0"
edition = "2021"
publish = false

[dependencies]
anyhow = "=1.0.104"
block2 = "0.6"
chrono = { version = "=0.4.45", features = ["serde"] }
hound = "=3.5.1"
libc = "=0.2.191"
objc2 = "0.6"
objc2-app-kit = "0.3"
objc2-core-audio = "0.3"
objc2-core-audio-types = "0.3"
objc2-core-foundation = "0.3"
objc2-foundation = "0.3"
objc2-web-kit = "0.3"
ort = { version = "2.0.0-rc.11", default-features = false, features = ["load-dynamic", "std"] }
rubato = "=5.0.1"
rustfft = "=6.4.1"
serde = { version = "=1.0.229", features = ["derive"] }
serde_json = "=1.0.154"
