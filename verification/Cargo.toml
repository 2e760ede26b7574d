[package]
name = "twopc"
version = "0.1.0"
edition = "2021"
publish = false

[dependencies]
rand = "0.8"
clap = "2"
ctrlc = "3"
ipc-channel = "*"
log = "0.4"
stderrlog = "0.5"
serde = { version = "1", features = ["derive"] }
