[package]
name = "btree"
version = "0.1.0"
edition = "2021"

[dependencies]
bincode = "=1.3.3"
embedded-io = "=0.4.0"
serde = { version = "=1.0.229", features = ["derive"] }
thiserror = "=1.0.69"
