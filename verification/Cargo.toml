[package]
name = "garou"
version = "0.1.0"
edition = "2021"
publish = false

[dependencies]
anyhow = "1"
base64 = "0.22"
clap = { version = "4", features = ["derive"] }
crossterm = "0.28"
dirs = "5"
image = { version = "0.25", default-features = false, features = ["png", "jpeg", "gif", "webp", "bmp"] }
libc = "0.2"
open = "5"
serde = { version = "1", features = ["derive"] }
smol = "2"
toml = "0.8"
unicode-width = "0.2"
