[package]
name = "dts_to_uff_converter"
version = "0.1.0"
edition = "2021"
publish = false

[dependencies]
anyhow = "1"
async-trait = "0.1"
byteorder = "1"
clap = { version = "4", features = ["derive"] }
encoding_rs = "0.8"
indicatif = "0.17"
natord = "1"
quick-xml = "0.31"
rayon = "1"
rust-mcp-sdk = "*"
serde = { version = "1", features = ["derive"] }
serde_json = "1"
tokio = { version = "1", features = ["rt-multi-thread", "macros"] }
