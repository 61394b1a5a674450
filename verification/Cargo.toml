[package]
name = "wordbreaker"
version = "0.1.0"
edition = "2021"
publish = false

[dependencies]
bitvec = "1"
fst = "0.4"
unicode-normalization = "0.1"
unicode-segmentation = "1"
