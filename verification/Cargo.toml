[package]
name = "expr_minimizer"
version = "0.1.0"
edition = "2021"
publish = false

[dependencies]
egg = "0.9"
num-complex = "0.4"
num-traits = "0.2"
plotters = { version = "0.3", default-features = false, features = ["bitmap_backend", "bitmap_encoder", "line_series", "ab_glyph"] }
rand = "0.8"
rayon = "1"
regex = "1"
rug = { version = "1", default-features = false, features = ["std", "float", "complex"] }
rustc-hash = "1"
xxhash-rust = { version = "0.8", features = ["xxh3"] }
