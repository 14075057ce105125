[package]
name = "gowr_noclip"
version = "0.1.0"
edition = "2021"
publish = false

[dependencies]
libmem = "*"
device_query = "*"
