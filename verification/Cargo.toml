[package]
name = "scx_atropos"
version = "0.1.0"
edition = "2021"
publish = false

[dependencies]
anyhow = "1"
bitvec = "1"
clap = { version = "4", features = ["derive"] }
ctrlc = "3"
hex = "0.4"
libbpf-rs = "0.21"
libc = "0.2"
log = "0.4"
simplelog = "0.12"
