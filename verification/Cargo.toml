[package]
name = "gossip_sim"
version = "0.1.0"
edition = "2021"
publish = false

[dependencies]
crossbeam-channel = "*"
itertools = "*"
rand = "0.8"
