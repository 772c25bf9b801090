[package]
name = "fusion_blossom"
version = "0.2.4"
edition = "2021"
publish = false

[dependencies]
priority-queue = "1"
rayon = "1"
serde = { version = "1", features = ["derive"] }
serde_json = "1"
clap = { version = "4", features = ["derive"] }
