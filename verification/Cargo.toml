[package]
name = "runkv_storage"
version = "0.1.0"
edition = "2021"
publish = false

[dependencies]
anyhow = "*"
async-trait = "*"
crc32fast = "*"
farmhash = "*"
lz4_flex = "*"
serde = { version = "*", features = ["derive"] }
