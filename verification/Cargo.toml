[package]
name = "spelint-lib"
version = "0.1.0"
edition = "2021"
publish = false

[dependencies]
fst = { version = "=0.4.7", features = ["levenshtein"] }
unicode-segmentation = "1"

[dev-dependencies]
regex = "=1.13.1"
