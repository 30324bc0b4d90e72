[package]
name = "skiplist_rs"
version = "0.1.0"
edition = "2021"
publish = false

[dependencies]
tikv-jemalloc-ctl = { version = "=0.7.0", features = ["stats"] }
