[package]
name = "hamster_export"
version = "0.1.0"
edition = "2021"
publish = false

[dependencies]
glob = "*"
itertools = "*"
rusqlite = "*"
time = "0.1"
xdg-basedir = "*"
