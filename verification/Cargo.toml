[package]
name = "easter_egg"
version = "0.1.0"
edition = "2021"
publish = false

[dependencies]
bimap = "*"
indexmap = "*"
smallvec = "*"
symbol_table = { version = "*", features = ["global"] }
thiserror = "*"
