[package]
name = "ceresc"
version = "0.1.0"
edition = "2021"

[dependencies]
pest = "2"
