[package]
name = "cmap_remap"
version = "0.1.0"
edition = "2021"
publish = false

[dependencies]
clap = { version = "4", features = ["derive"] }
subsetter = "0.1"
ttf-parser = "0.25"
