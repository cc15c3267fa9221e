[package]
name = "babel_crypt"
version = "0.2.0"
edition = "2021"

[dependencies]
blake3 = { version = "1", features = ["pure"] }
rand = "0.9"
rayon = "1"
crossterm = "0.28"
ratatui = "0.29"
