[package]
name = "vector_index"
version = "0.1.0"
edition = "2021"
publish = false

[dependencies]
anyhow = "1"
libc = "0.2"
serde = { version = "1", features = ["derive"] }
serde_json = "1"
tch = "*"
tiktoken-rs = "*"
tokio = { version = "1", features = ["full"] }
