[package]
name = "elenchus"
version = "0.1.0"
edition = "2021"
publish = false

[dependencies]
sha2 = "=0.10.9"
clap = { version = "=4.6.7", features = ["derive"] }
thiserror = "2"
