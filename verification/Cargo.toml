[package]
name = "worldbox"
version = "0.1.0"
edition = "2021"
publish = false

[dependencies]
rand = "=0.10.3"
rand_chacha = "=0.10.0"
rayon = "=1.12.0"
bevy = { version = "=0.17.3", default-features = false }
