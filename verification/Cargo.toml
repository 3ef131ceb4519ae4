[package]
name = "obsidian_hugo"
version = "0.1.0"
edition = "2021"
publish = false

[dependencies]
clap = { version = "4", features = ["derive"] }
queues = "1"
yaml-rust = "0.4"
