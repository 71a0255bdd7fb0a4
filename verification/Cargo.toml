[package]
name = "featherkey"
version = "0.1.0"
edition = "2021"
publish = false

[dependencies]
fst = "0.4"
unicode-segmentation = "1"
unicode-normalization = "0.1"
thiserror = "*"
