[package]
name = "string_decoder"
version = "0.1.0"
edition = "2021"
publish = false

[dependencies]
rquickjs = { version = "=0.6.2", features = ["macro", "array-buffer"] }
llrt_utils = "=0.2.2-beta"
