[package]
name = "tail"
version = "0.1.0"
edition = "2021"
publish = false

[dependencies]
getopts = "*"
inotify = { version = "*", default-features = false }
