[package]
name = "schem"
version = "0.1.0"
edition = "2021"
publish = false

[dependencies]
quartz_nbt = "*"
