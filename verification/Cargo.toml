[package]
name = "slotted_btree"
version = "0.1.0"
edition = "2021"
publish = false

[dev-dependencies]
bytemuck = "1"
rand = "=0.9.5"
