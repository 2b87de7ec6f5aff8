[package]
name = "dot_conf_parser"
version = "0.1.0"
edition = "2021"

[dependencies]
strum = "0.28"
