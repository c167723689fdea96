[package]
name = "similarity_search"
version = "0.1.0"
edition = "2021"
publish = false

[dependencies]
rand = "0.8"
wit-bindgen = "0.24.0"
