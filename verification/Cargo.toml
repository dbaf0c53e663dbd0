[package]
name = "mycal"
version = "0.1.0"
edition = "2021"
publish = false

[dependencies]
bincode = { version = "2", features = ["derive"] }
lz4_flex = "*"
porter-stemmer = "*"
unicode-normalization = "*"
unicode-segmentation = "*"
clap = { version = "4", features = ["derive"] }
serde = { version = "1", features = ["derive"] }
serde_json = "1"
toml = "*"
flate2 = "1"
min-max-heap = "*"
ordered-float = "*"
rand = "0.9"
rust_tokenizers = "*"
