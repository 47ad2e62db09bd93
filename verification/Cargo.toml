[package]
name = "reversi_rs"
version = "0.1.0"
edition = "2021"
publish = false

[dependencies]
rand = "0.6"
crossbeam = "0.7"
atomic_refcell = "0.1"
