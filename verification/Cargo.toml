[package]
name = "xwords"
version = "0.1.0"
edition = "2021"
publish = false

[dependencies]
bincode = "1"
chrono = "0.4"
clap = "2"
Inflector = "0.11"
pprof = { version = "*", features = ["flamegraph"] }
rand = "0.9"
rustc-hash = "*"
serde = { version = "1", features = ["derive"] }
serde_json = "1"
