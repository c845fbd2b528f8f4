[package]
name = "searchidx"
version = "0.1.0"
edition = "2021"
publish = false

[dependencies]
ammonia = "*"
anyhow = "*"
cuckoofilter = "*"
pulldown-cmark = "*"
rust_icu_sys = "*"
rust_icu_ubrk = "*"
tempfile = "*"
