[package]
name = "buddy_pool"
version = "0.1.0"
edition = "2021"

[dependencies]
errno = "*"
memmap2 = "*"
