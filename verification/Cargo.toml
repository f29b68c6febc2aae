[package]
name = "blaise"
version = "0.1.0"
edition = "2021"
publish = false

[dependencies]
gtfs-bin = { version = "=0.1.3", default-features = false, features = ["consumer"] }
smallvec = "=1.16.4"
rayon = "=1.12.0"
chrono = "=0.4.45"
thiserror = "=2.0.21"
memmap2 = "=0.9.12"
dialoguer = { version = "=0.12.0", features = ["fuzzy-select"] }
