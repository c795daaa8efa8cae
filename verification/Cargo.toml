[package]
name = "shape_router"
version = "0.1.0"
edition = "2021"
publish = false

[dependencies]
roaring = "*"
siphasher = "*"
xorf = "*"
parking_lot = "*"
