[package]
name = "the_slab"
version = "0.1.0"
edition = "2021"
publish = false

[dependencies]
the-buddy-system = "=0.1.0"
the-memblock = "0.2"
