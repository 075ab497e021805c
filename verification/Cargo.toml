[package]
name = "rinha"
version = "0.1.0"
edition = "2021"
publish = false

[dependencies]
anyhow = "1"
memmap2 = "0.9"
mimalloc = "0.1"
mio = { version = "1", features = ["os-poll", "net"] }
serde = { version = "1", features = ["derive"] }
serde_json = { version = "1", features = ["raw_value"] }
