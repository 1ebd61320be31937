[package]
name = "linked-queue"
version = "0.1.0"
edition = "2021"
publish = false

[dependencies]
arbitrary = { version = "1", features = ["derive"] }
libfuzzer-sys = "0.4"
