[package]
name = "tsp_solver"
version = "0.1.0"
edition = "2021"
publish = false

[dependencies]
itertools = "0.14"
rand = "0.8"
dialoguer = "0.11"
