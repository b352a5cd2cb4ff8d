[package]
name = "redo"
version = "0.2.1"
edition = "2021"
publish = false

[dependencies]
anyhow = "1"
clap = "2.33"
futures = "0.3"
libc = "0.2"
nix = "0.23"
rand = "0.8"
rusqlite = { version = "0.26", features = ["bundled"] }
sha1 = "0.10"
tempfile = "3"
term_size = "0.3"
