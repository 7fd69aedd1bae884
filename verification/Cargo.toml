[package]
name = "epistemos-recall"
version = "0.1.0"
edition = "2021"
publish = false

[dependencies]
sha2 = "0.10"
bitvec = "1"
rustc-hash = "2"
serde = { version = "1", features = ["derive"] }
serde_json = "1"
parking_lot = "0.12"
walkdir = "2"
tantivy = "0.22"
thiserror = "1"
crossbeam-epoch = "0.9"
once_cell = "1"
bincode = "1"
usearch = "2"
model2vec-rs = "*"
