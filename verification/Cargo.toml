[package]
name = "ase_index"
version = "0.1.0"
edition = "2021"

[dependencies]
asefile = "*"
