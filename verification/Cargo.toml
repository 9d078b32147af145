[package]
name = "pstree"
version = "0.1.0"
edition = "2021"
publish = false

[dependencies]
unicode-width = "*"
getopts = "*"
terminal_size = "*"
users = "*"
