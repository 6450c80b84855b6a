[package]
name = "text_parser"
version = "0.1.0"
edition = "2021"
publish = false

[dependencies]
regex = "=1.13.1"
epubparse = "=0.2.2"
serde = { version = "=1.0.229", features = ["derive"] }
serde_json = "=1.0.154"
docx-rust = "=0.1.11"
egui = "=0.22.0"
