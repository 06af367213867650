[package]
name = "cloppy_ntfs"
version = "0.1.0"
edition = "2021"
publish = false

[dependencies]
twoway = "*"
crossbeam-channel = "*"
parking_lot = "*"
rust-ini = "*"
rusqlite = { version = "*", features = ["bundled"] }
