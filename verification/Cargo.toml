[package]
name = "stream_fs"
version = "0.1.0"
edition = "2021"
publish = false

[dependencies]
fs2 = "*"
lru = "*"
lz4_flex = "*"
rayon = "*"
thread_local = "*"
zerocopy = { version = "*", features = ["derive"] }
