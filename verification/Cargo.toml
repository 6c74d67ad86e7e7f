[package]
name = "emmylua_formatter"
version = "0.1.0"
edition = "2021"
publish = false

[dependencies]
emmylua_parser = "*"
rowan = "*"
lsp-types = "*"
tokio-util = "*"
