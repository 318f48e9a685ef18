[package]
name = "hyphenation"
version = "0.1.0"
edition = "2021"
publish = false

[dependencies]
bincode = "1"
fnv = "1"
fst = "0.4"
serde = { version = "1", features = ["derive"] }

[dev-dependencies]
quickcheck = { version = "1", default-features = false }
unicode-segmentation = "1"
