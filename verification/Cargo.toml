[package]
name = "ginger"
version = "0.1.0"
edition = "2021"
publish = false

[dependencies]
unicode_categories = "*"
