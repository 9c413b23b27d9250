[package]
name = "rasc"
version = "0.1.0"
edition = "2021"
publish = false

[dependencies]
anyhow = "1"
clap = { version = "4", features = ["derive"] }
libc = "0.2"
libdeflater = "1"
memchr = "2"
memmap2 = "0.9"
rayon = "1"

[dev-dependencies]
flate2 = "1"
