[package]
name = "arnis"
version = "0.1.0"
edition = "2021"
publish = false

[dependencies]
colored = "=3.1.1"
dirs = "=6.0.0"
memmap2 = "=0.9.12"
rayon = "=1.12.0"
tempfile = "=3.27.0"
