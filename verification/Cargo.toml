[package]
name = "tree_snapshot"
version = "0.1.0"
edition = "2021"
publish = false

[dependencies]
autocorrect = "=2.14.2"
