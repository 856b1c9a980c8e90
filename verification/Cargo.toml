[package]
name = "kmer_counter"
version = "0.1.0"
edition = "2021"
publish = false

[dependencies]
clap = "4"
crossbeam-channel = "0.5"
needletail = { version = "*", default-features = false }
rayon = "1"
