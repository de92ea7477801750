[package]
name = "content_bundles"
version = "0.1.0"
edition = "2021"
publish = false

[dependencies]
chrono = "0.4"
dirs-next = "2"
parking_lot = "0.12"
