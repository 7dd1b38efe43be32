[package]
name = "map_4col"
version = "0.1.0"
edition = "2021"

[dependencies]
colored = "2"
rand = "0.8"
structopt = "0.3"
