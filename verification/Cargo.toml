[package]
name = "fds"
version = "0.1.0"
edition = "2021"
publish = false

[dependencies]
serde = { version = "1", features = ["derive"] }
serde_json = "1"
libc = "0.2"
rustix = { version = "1", features = ["event", "net", "fs", "pipe", "process", "thread"] }
io-uring = "0.7"
