[package]
name = "prose_complete"
version = "0.1.0"
edition = "2021"
publish = false

[dependencies]
trie-rs = "0.1"
once_cell = "1"
emacs = "*"
