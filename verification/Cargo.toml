[package]
name = "dictdoy"
version = "0.1.0"
edition = "2021"
publish = false

[dependencies]
chinese_dictionary = "=2.1.8"
egui = "=0.26.2"
serde = { version = "=1.0.229", features = ["derive"] }
