[package]
name = "solari"
version = "0.1.0"
edition = "2021"
publish = false

[dependencies]
anyhow = "=1.0.104"
chrono = { version = "=0.4.45", features = ["serde"] }
chrono-tz = "=0.10.4"
clap = { version = "=4.6.7", features = ["derive"] }
csv = "1"
rayon = "=1.12.0"
redb = "=4.4.0"
reqwest = { version = "=0.13.5", default-features = false }
s2 = "=0.2.0"
serde = { version = "=1.0.229", features = ["derive"] }
serde_json = "=1.0.154"
similar = "=2.7.0"
tempdir = "=0.3.7"
time = { version = "=0.3.55", features = ["serde"] }
tokio = { version = "=1.54.1", features = ["rt-multi-thread", "macros"] }
tracing = "=0.1.44"
tracing-subscriber = "=0.3.23"
zip = { version = "*", default-features = false, features = ["deflate"] }
