[package]
name = "linediag"
version = "0.1.0"
edition = "2021"
publish = false

[dependencies]
owo-colors = "*"
unicode-segmentation = "*"
unicode-width = "*"
