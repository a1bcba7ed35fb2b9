[package]
name = "hexboard"
version = "0.1.0"
edition = "2021"
publish = false

[dependencies]
log = "*"
stdweb = "*"
web_logger = "*"
