[package]
name = "macrobm"
version = "0.4.3"
edition = "2021"
publish = false

[dependencies]
yaml-rust = "*"
clap = "*"
term-painter = "*"
threadpool = "*"
