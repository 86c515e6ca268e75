[package]
name = "mencius"
version = "0.1.0"
edition = "2021"
publish = false

[dependencies]
dashmap = "5.5"
rand = "0.8"
tokio = { version = "1", features = ["macros", "rt-multi-thread", "sync"] }
tonic = "0.12"
prost = "0.13"
clap = { version = "4", features = ["derive"] }
serde = { version = "1", features = ["derive"] }
bincode = "1"
anyhow = "1"
derive_builder = "0.20"
