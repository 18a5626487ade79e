[package]
name = "snipx-core"
version = "0.1.1"
edition = "2021"
publish = false

[dependencies]
unicode-normalization = "0.1"
pulldown-cmark = { version = "0.13", default-features = false }
serde = { version = "1", features = ["derive"] }
serde_json = "1"
clap = { version = "4", features = ["derive"] }
