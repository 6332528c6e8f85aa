[package]
name = "patch_crate"
version = "0.1.0"
edition = "2021"
publish = false

[dependencies]
anyhow = "=1.0.104"
cargo = "=0.68.0"
cargo-util = "=0.2.3"
clap = { version = "=4.6.7", features = ["derive"] }
fs_extra = "=1.3.0"
kstring = "=2.0.0"
paris = { version = "=1.5.15", features = ["macros"] }
