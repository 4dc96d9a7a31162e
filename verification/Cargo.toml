[package]
name = "data_structures"
version = "0.1.0"
edition = "2021"
publish = false

[dependencies]
bitvec = "1"
prettytable-rs = { version = "0.10", default-features = false }
seahash = "4"
