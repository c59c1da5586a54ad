[package]
name = "lev_automaton"
version = "0.1.0"
edition = "2021"
publish = false

[dependencies]
itertools = "*"
serde_json = "*"
