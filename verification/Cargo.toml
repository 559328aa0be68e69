[package]
name = "dirinfo"
version = "0.1.0"
edition = "2021"
publish = false

[dependencies]
regex = "1"
md5 = "0.7"
clap = "2"
walkdir = "2"
