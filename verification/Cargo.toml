[package]
name = "globstar"
version = "0.0.1"
edition = "2021"
publish = false

[dependencies]
globset = "0.4"
wax = "0.6"
