[package]
name = "rocksdb_examples"
version = "0.1.0"
edition = "2021"
publish = false

[dependencies]
anyhow = "=1.0.104"
clap = { version = "=4.6.7", features = ["derive"] }
hex = "=0.4.3"
indicatif = "=0.18.6"
nbytes = "=0.1.0"
num_cpus = "=1.17.0"
rand = "=0.10.3"
rayon = "=1.12.0"
