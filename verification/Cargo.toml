[package]
name = "fuzzdex"
version = "0.1.0"
edition = "2021"
publish = false

[dependencies]
ahash = "*"
lru = "*"
unicode-normalization = "*"
unicode-segmentation = "*"
unicode_categories = "*"
