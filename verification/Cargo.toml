[package]
name = "yaccgl_core"
version = "0.1.0"
edition = "2021"
publish = false

[dependencies]
crc32fast = "1"
hex = "0.4"
md-5 = "0.10"
serde = { version = "1", features = ["derive"] }
serde_json = "1"
ureq = { version = "3", features = ["json"] }
sevenz-rust2 = "*"
dirs = "6"
libc = "0.2"
clap = { version = "4", features = ["derive"] }
anyhow = "1"
thiserror = "2"
