[package]
name = "bundle_rewrite"
version = "0.1.0"
edition = "2021"
publish = false

[dependencies]
anyhow = "1"
cargo_metadata = "*"
cfg-expr = "*"
fixedbitset = "*"
proc-macro2 = { version = "1", features = ["span-locations"] }
quote = "1"
syn = { version = "1", features = ["full", "visit", "extra-traits"] }
