[package]
name = "rtfm_syntax"
version = "0.1.0"
edition = "2021"
publish = false

[dependencies]
syn = { version = "=0.12.15", features = ["full", "extra-traits"] }
proc-macro2 = "=0.2.3"
unicode-xid = "=0.1.0"
