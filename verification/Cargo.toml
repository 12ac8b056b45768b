[package]
name = "log_parser"
version = "1.0.0"
edition = "2021"
publish = false

[dependencies]
anyhow = "1"
clap = "4"
thiserror = "1"
