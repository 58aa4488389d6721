[package]
name = "doc_navigation"
version = "0.1.0"
edition = "2021"
publish = false

[dependencies]
alphanumeric-sort = "1"
serde = { version = "1", features = ["derive"] }
