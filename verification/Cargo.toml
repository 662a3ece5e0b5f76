[package]
name = "postings"
version = "0.1.0"
edition = "2021"
publish = false

[dependencies]
half = "=2.7.1"
log = "=0.4.35"
serde = { version = "=1.0.229", features = ["derive"] }
