[package]
name = "folder_archive"
version = "0.1.0"
edition = "2021"
publish = false

[dependencies]
itertools = "0.10"
log = "0.4"
rayon = "1"
simple_logger = "*"
structopt = "0.3"
walkdir = "2"
