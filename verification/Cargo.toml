[package]
name = "lockstep"
version = "0.1.0"
edition = "2021"
publish = false

[dependencies]
serde = { version = "1", features = ["derive"] }
bincode = "1"
message-io = "*"
log = "0.4"
log-panics = "*"
