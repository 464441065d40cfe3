[package]
name = "rustsync"
version = "0.1.0"
edition = "2021"
publish = false

[dependencies]
xxhash-rust = { version = "0.8", features = ["xxh3"] }
image = { version = "0.25", default-features = false, features = ["jpeg", "png", "gif", "bmp", "webp", "tiff", "ico"] }
ratatui = "0.29"
ratatui-image = "8"
crossterm = "0.28"
clap = { version = "4", features = ["derive"] }
chrono = "0.4"
indicatif = "0.17"
rayon = "1"
walkdir = "2"
dirs = "6"
bincode = "1"
