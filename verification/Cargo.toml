[package]
name = "facet_index"
version = "0.1.0"
edition = "2021"
publish = false

[dependencies]
actix-web = { version = "=0.7.19", default-features = false }
failure = "=0.1.8"
serde_json = "=1.0.154"
tantivy = { version = "0.27", default-features = false, features = ["mmap"] }
