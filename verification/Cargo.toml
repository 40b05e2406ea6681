[package]
name = "lindera"
version = "0.1.0"
edition = "2021"
publish = false

[dependencies]
regex = "1"
kanaria = "0.2"
unicode-normalization = "0.1"
clap = { version = "4", features = ["derive"] }
