[package]
name = "stockframe"
version = "0.1.0"
edition = "2021"
publish = false

[dependencies]
anyhow = "=1.0.104"
chrono = { version = "=0.4.45", default-features = false, features = ["std", "clock"] }
curl = "=0.4.51"
dotenv = "=0.15.0"
libc = "=0.2.191"
polars = { version = "=0.35.4", default-features = false, features = ["lazy", "strings", "dtype-datetime", "temporal"] }
serde_json = "=1.0.154"
ta-lib-sys = "=0.1.2"
tch = "=0.26.0"
