[package]
name = "sefirot"
version = "0.1.0"
edition = "2021"
publish = false

[dependencies]
petgraph = "=0.6.5"
generational-arena = "=0.2.9"
dashmap = "=5.5.3"
indexmap = "=2.14.2"
pretty-type-name = "=1.0.1"
