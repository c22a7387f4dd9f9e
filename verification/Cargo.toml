[package]
name = "doc_quad"
version = "0.1.0"
edition = "2021"
publish = false

[dependencies]
fast-canny = "*"
ndarray = "*"
glam = "*"
log = "0.4"
thiserror = "*"
bytemuck = "*"
