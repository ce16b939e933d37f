[package]
name = "kdtree_ray"
version = "1.2.1"
edition = "2021"
publish = false

[dependencies]
cgmath = "*"
