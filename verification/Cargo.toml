[package]
name = "clip_bpe"
version = "0.1.0"
edition = "2021"
publish = false

[dependencies]
flate2 = "1"

[dev-dependencies]
instant-clip-tokenizer = "=0.1.0"
