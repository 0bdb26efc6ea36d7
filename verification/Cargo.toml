[package]
name = "rom_dedupe"
version = "0.1.0"
edition = "2021"
publish = false

[dependencies]
clap = "4"
serde = { version = "1", features = ["derive"] }
serde-xml-rs = "*"
