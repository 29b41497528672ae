[package]
name = "calculator"
version = "0.1.0"
edition = "2021"
publish = false

[dependencies]
eframe = { version = "=0.22.0", default-features = false, features = ["glow"] }
egui = { version = "=0.22.0", default-features = false }
tracing-subscriber = { version = "=0.3.23", default-features = false, features = ["fmt"] }
