[package]
name = "fastdata_tfrecord"
version = "0.1.0"
edition = "2021"
publish = false

[dependencies]
crc = "*"
io-uring = "*"
memmap2 = "*"
glob = "*"
prost = "*"
