[package]
name = "diff_coverage"
version = "0.1.0"
edition = "2021"
publish = false

[dependencies]
quick-xml = "*"
clap = { version = "4", features = ["derive"] }
owo-colors = "*"
serde = { version = "1", features = ["derive"] }
serde_json = "1"
