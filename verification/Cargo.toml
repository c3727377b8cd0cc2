[package]
name = "dupefiles"
version = "0.1.0"
edition = "2021"
publish = false

[dependencies]
sha1 = "0.6"
clap = "2"
walkdir = "2"
pretty-bytes = "*"
