[package]
name = "rust_tokenizers"
version = "0.1.0"
edition = "2021"
publish = false

[dependencies]
itertools = "*"
rayon = "*"
unicode-normalization = "*"
unicode_categories = "*"
