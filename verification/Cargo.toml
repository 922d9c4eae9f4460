[package]
name = "meta_hybrid"
version = "0.1.0"
edition = "2021"
publish = false

[dependencies]
anyhow = "1"
log = "0.4"
nix = { version = "*", features = ["ioctl"] }
rayon = "1"
rustix = { version = "1", features = ["fs", "mount"] }
serde = { version = "1", features = ["derive"] }
serde_json = "1"
walkdir = "2"
