[package]
name = "neurogit"
version = "0.1.0"
edition = "2021"
publish = false

[dependencies]
serde_json = "1"
serde = { version = "1", features = ["derive"] }
tokio = { version = "1", features = ["full"] }
colored = "2"
walkdir = "2"
git2 = { version = "0.19", default-features = false }
lsp-types = "0.97"
