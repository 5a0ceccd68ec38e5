[package]
name = "legion"
version = "0.1.0"
edition = "2021"
publish = false

[dependencies]
byteorder = "=1.5.0"
xxhash-rust = { version = "=0.8.19", features = ["const_xxh3", "xxh3"] }
hex = "=0.4.3"
fixedbitset = "=0.5.7"
serde = { version = "=1.0.229", features = ["derive"] }
serde_json = "=1.0.154"
thiserror = "=2.0.21"
anyhow = "=1.0.104"
syn = { version = "1", features = ["full"] }
proc-macro2 = "1"
quote = "1"
diffy = "*"
