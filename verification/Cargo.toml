[package]
name = "aquatic"
version = "0.1.0"
edition = "2021"

[dependencies]
rand = { version = "0.8", features = ["small_rng"] }
serde = "1"
libc = "0.2"
anyhow = "1"
log = "0.4"
