[package]
name = "nudat"
version = "0.1.0"
edition = "2021"
publish = false

[dependencies]
anyhow = "1"
binrw = "*"
clap = { version = "4", features = ["derive"] }
flate2 = "1"
indicatif = "*"
miniz_oxide = "0.8"
rayon = "1"
tempfile = "3"
thiserror = "2"
