[package]
name = "rar"
version = "0.1.0"
edition = "2021"
publish = false

[dependencies]
nom = "4"
chrono = { version = "0.4", default-features = false, features = ["std"] }
rust-crypto = "0.2"
