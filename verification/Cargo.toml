[package]
name = "egg_pattern"
version = "0.1.0"
edition = "2021"
publish = false

[dependencies]
itertools = "*"
symbolic_expressions = "*"
