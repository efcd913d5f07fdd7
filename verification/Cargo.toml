[package]
name = "relly"
version = "0.1.0"
edition = "2021"
publish = false

[dependencies]
anyhow = "1"
thiserror = "1"
zerocopy = "0.6"
