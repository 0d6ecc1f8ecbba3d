[package]
name = "digital_brain"
version = "0.1.0"
edition = "2021"
publish = false

[dependencies]
macroquad = { version = "0.4", default-features = false }
serde = { version = "1", features = ["derive"] }
bincode = "1"
dashmap = "6"
rayon = "1"
