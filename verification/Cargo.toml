[package]
name = "rdr"
version = "0.1.0"
edition = "2021"

[dependencies]
rand = "0.8"
clap = "4"
crossterm = "0.27"
itertools = "0.13"
wasm-bindgen = "0.2"
