[package]
name = "rust_final"
version = "0.1.0"
edition = "2021"
publish = false

[dependencies]
rayon = "=1.12.0"
rayon-core = "=1.13.0"
sysinfo = "=0.30.13"
