[package]
name = "fs2iso"
version = "0.1.0"
edition = "2021"
publish = false

[dependencies]
clap = { version = "4.5", features = ["derive"] }
fatfs = "0.3"
hadris-cd = "2.3"
hadris-iso = "*"
