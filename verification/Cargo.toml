[package]
name = "lite_encoder"
version = "0.1.0"
edition = "2021"
publish = false

[dependencies]
h264-reader = "=0.9.0"
openh264 = "=0.9.9"
openh264-sys2 = "=0.9.9"
rav1e = { version = "=0.8.1", default-features = false, features = ["threading"] }
tracing-subscriber = { version = "=0.3.23", features = ["env-filter"] }
