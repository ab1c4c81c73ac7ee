[package]
name = "tree_to_excel"
version = "0.1.0"
edition = "2021"
publish = false

[dependencies]
anyhow = "1"
clap = "4"
rust_xlsxwriter = "*"
