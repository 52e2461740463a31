[package]
name = "rotonda-store"
version = "0.1.0"
edition = "2021"
publish = false

[dependencies]
crossbeam-epoch = "=0.9.21"
inetnum = "=0.1.1"
