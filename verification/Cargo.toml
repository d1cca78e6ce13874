[package]
name = "xmliter"
version = "0.1.0"
edition = "2021"
publish = false

[dependencies]
quick-xml = "=0.31.0"
html5ever = "0.26"
