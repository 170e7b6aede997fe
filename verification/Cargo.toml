[package]
name = "beamtable"
version = "0.1.0"
edition = "2021"
publish = false

[dependencies]
clap = { version = "=4.6.7", features = ["derive"] }
vsvg = "0.4.0"
