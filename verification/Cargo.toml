[package]
name = "egs"
version = "0.1.0"
edition = "2021"
publish = false

[dependencies]
indexmap = "*"
fxhash = "*"
hashbrown = "*"
symbolic_expressions = "*"
