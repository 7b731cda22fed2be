[package]
name = "minitable"
version = "0.1.0"
edition = "2021"
publish = false

[dependencies]
slab = "0.4"
ahash = "0.8"
darling = "0.20"
syn = "2"
quote = "1"
proc-macro2 = "1"
