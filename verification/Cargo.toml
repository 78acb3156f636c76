[package]
name = "ktra_login"
version = "0.1.0"
edition = "2021"
rust-version = "1.95"
publish = false

[dependencies]
anyhow = "=1.0.104"
cargo = "=0.86.0"
cargo-credential = "=0.4.11"
cargo-util = "=0.2.21"
kstring = "=2.0.1"
clap = { version = "=4.5.61", features = ["derive"] }
clap-cargo = "=0.19.0"
curl = "*"
