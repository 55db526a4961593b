[package]
name = "zim"
version = "0.1.0"
edition = "2021"
publish = false

[dependencies]
md5 = "0.7"
memchr = "2"
memmap2 = "0.9"
rustc-hash = "2"
walkdir = "2"
zstd = "0.13"
