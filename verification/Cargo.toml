[package]
name = "fuchsia_support"
version = "0.1.0"
edition = "2021"
publish = false

[dependencies]
syn = "0.15"
proc-macro2 = "0.4"
futures = "0.3"
async-trait = "0.1"
