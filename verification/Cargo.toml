[package]
name = "snippet_library"
version = "0.1.0"
edition = "2021"
publish = false

[dependencies]
serde_norway = "0.9"
anyhow = "1"
thiserror = "*"
dirs = "*"
log = "0.4"
