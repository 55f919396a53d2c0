[package]
name = "ticktape"
version = "0.1.0"
edition = "2021"
publish = false

[dependencies]
io-uring = "*"
memmap2 = "0.9"
proc-macro2 = "1"
quote = "1"
raft = "0.7"
slog = "2"
syn = "2"
tempfile = "3"
