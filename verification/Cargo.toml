[package]
name = "sqruff_lib"
version = "0.1.0"
edition = "2021"
publish = false

[dependencies]
ahash = "*"
rustc-hash = "*"
nohash-hasher = "*"
regex = "*"
fancy-regex = "*"
anstyle = "*"
itertools = "*"
smol_str = "*"
indexmap = "*"
stacker = "*"
tracing = "*"
console = "*"
clap = { version = "*", features = ["derive"] }
uuid = { version = "*", features = ["v4"] }
