[package]
name = "ferruginous"
version = "0.1.0"
edition = "2021"
publish = false

[dependencies]
approx = "=0.5.1"
bincode = { version = "=2.0.1", features = ["derive", "serde"] }
cached = "=4.1.0"
chrono = "=0.4.45"
clap = { version = "=4.6.7", features = ["derive"] }
duckdb = "=1.20000.1"
geo = "=0.33.1"
geo-traits = "=0.3.0"
geo-types = "=0.7.20"
hex = "=0.4.3"
itertools = "=0.14.0"
nalgebra = "=0.35.0"
rayon = "=1.12.0"
rust_decimal = "=1.43.0"
serde = { version = "=1.0.229", features = ["derive"] }
thiserror = "=2.0.21"
typed-builder = "=0.23.2"
wkb = "=0.9.3"
