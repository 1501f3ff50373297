[package]
name = "dirp"
version = "0.1.0"
edition = "2021"
publish = false

[dependencies]
chrono = "0.4"
crossterm = "0.25"
dialoguer = { version = "0.10", features = ["fuzzy-select"] }
home = "0.5"
threadpool = "1.8"
timer = "0.2"
trash = "3"
tui = "0.19"
