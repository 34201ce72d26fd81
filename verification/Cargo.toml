[package]
name = "pegy"
version = "0.1.0"
edition = "2021"
publish = false

[dependencies]
fast-float = "0.2"
futures = "0.3"
itoa = "1"
proc-macro2 = "1"
quote = "1"
syn = { version = "2", features = ["full"] }
unicode-id-start = "1"
unicode-ident = "1"
