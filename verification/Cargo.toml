[package]
name = "dvcs"
version = "0.1.0"
edition = "2021"
publish = false

[dependencies]
sha256 = { version = "1", default-features = false }
diffy = "0.3"
chrono = "0.4"
walkdir = "2"
