[package]
name = "digits"
version = "0.1.0"
edition = "2021"

[dependencies]
base_custom = "*"
array_tool = "*"
