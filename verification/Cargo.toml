[package]
name = "vmf_diff"
version = "0.1.0"
edition = "2021"
publish = false

[dependencies]
clap = { version = "=4.6.7", features = ["derive"] }
vmf-forge = "=0.3.1"
