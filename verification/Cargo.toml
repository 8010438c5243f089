[package]
name = "file_copy_checker"
version = "0.1.0"
edition = "2021"
publish = false

[dependencies]
chrono = "*"
csv = "*"
dialoguer = { version = "*", features = ["fuzzy-select"] }
filesize = "*"
genpdf = "*"
home = "*"
humansize = "*"
indicatif = "*"
md5hash = "*"
