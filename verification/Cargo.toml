[package]
name = "lzjd_batch"
version = "0.1.0"
edition = "2021"
publish = false

[dependencies]
clap = { version = "=4.6.7", features = ["derive"] }
crc32fast = "=1.5.3"
malwaredb-lzjd = "=0.1.4"
malwaredb-murmurhash3 = "=0.1.3"
num_cpus = "=1.17.0"
rayon = "=1.12.0"
walkdir = "=2.5.0"
