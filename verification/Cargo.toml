[package]
name = "cango"
version = "0.1.0"
edition = "2021"
publish = false

[dependencies]
dirs = "=5.0.1"
eframe = { version = "=0.29.1", default-features = false, features = ["glow", "default_fonts"] }
reqwest = { version = "=0.12.28", default-features = false, features = ["blocking", "rustls-tls"] }
zip = { version = "=2.6.1", default-features = false, features = ["deflate"] }
