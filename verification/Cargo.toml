[package]
name = "dlldeps"
version = "0.1.0"
edition = "2021"
publish = false

[dependencies]
pelite = "=0.10.0"
dataview = { version = "=1.1.0", default-features = false }
clap = "=4.6.7"
