[package]
name = "spotless"
version = "0.1.0"
edition = "2021"
publish = false

[dependencies]
anyhow = "1"
clap = { version = "4", features = ["derive"] }
crossterm = "*"
dirs = "*"
libc = "0.2"
plist = "1"
ratatui = "*"
rayon = "1"
serde = { version = "1", features = ["derive"] }
serde_json = "1"
thiserror = "*"
toml = "*"
trash = "*"
walkdir = "2"
