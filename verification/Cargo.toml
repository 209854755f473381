[package]
name = "deoxit"
version = "0.1.0"
edition = "2021"
publish = false

[dependencies]
fs_extra = "*"
serde = { version = "*", features = ["derive"] }
tokio = { version = "*", features = ["rt-multi-thread", "sync", "macros"] }
