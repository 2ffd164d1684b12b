[package]
name = "verilog_macro_builder"
version = "0.1.0"
edition = "2021"
publish = false

[dependencies]
proc-macro2 = "=1.0.107"
quote = "=1.0.47"
syn = { version = "=2.0.119", features = ["full"] }
sv-parser = "=0.13.5"
unicode-ident = "=1.0.27"
