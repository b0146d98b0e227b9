[package]
name = "exam_dedup"
version = "0.1.0"
edition = "2021"
publish = false

[dependencies]
docx-rust = "=0.1.11"
duckdb = { version = "=1.4.5", default-features = false }
fastembed = { version = "=5.17.4", default-features = false }
serde = { version = "=1.0.229", features = ["derive"] }
serde_json = "=1.0.151"
