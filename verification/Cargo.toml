[package]
name = "colstore"
version = "0.1.0"
edition = "2021"
publish = false

[dependencies]
zstd = "*"
bloomfilter = "*"
crossbeam = "*"
memmap2 = "*"
