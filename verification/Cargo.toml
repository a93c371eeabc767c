[package]
name = "inspequte"
version = "0.1.0"
edition = "2021"
publish = false

[dependencies]
jdescriptor = "=0.2.0"
