[package]
name = "smol_gather"
version = "0.1.0"
edition = "2021"
publish = false

[dependencies]
murmurhash3 = "*"
needletail = { version = "*", default-features = false }
rayon = "*"
structopt = "*"
