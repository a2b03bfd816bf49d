[package]
name = "revent"
version = "0.1.0"
edition = "2021"
publish = false

[dependencies]
isize-vec = "*"
crossbeam-channel = "0.5"
slog = "2"
