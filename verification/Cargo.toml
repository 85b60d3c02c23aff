[package]
name = "syn_query"
version = "0.1.0"
edition = "2021"
publish = false

[dependencies]
proc-macro2 = "0.3"
syn = { version = "0.13", features = ["full", "visit", "extra-traits"] }
