[package]
name = "convert_path"
version = "0.1.0"
edition = "2021"
publish = false

[dependencies]
convert_case = "=0.6.0"
clap = "=2.34.0"
walkdir = "=2.5.0"
