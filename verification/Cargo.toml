[package]
name = "vibrato_rkyv"
version = "0.1.0"
edition = "2021"
publish = false

[dependencies]
rkyv = "0.8"
bincode = "2"
zstd = "0.13"
clap = { version = "4", features = ["derive"] }

[dev-dependencies]
vibrato = "0.5"
