[package]
name = "layercache"
version = "0.1.0"
edition = "2021"
publish = false

[dependencies]
hashbrown = "*"
rand = "*"
parking_lot = "*"
crossbeam-utils = "*"
futures = "*"
slab = "*"
