[package]
name = "syntree_layout"
version = "0.1.0"
edition = "2021"
publish = false

[dependencies]
syntree = "0.14"
