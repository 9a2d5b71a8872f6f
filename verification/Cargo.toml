[package]
name = "patchjuggler"
version = "0.1.0"
edition = "2021"
publish = false

[dependencies]
zerocopy = "0.7"
rand = "0.8"
clap = { version = "4", features = ["derive"] }
eframe = { version = "0.24", default-features = false, features = ["default_fonts", "glow", "x11"] }
