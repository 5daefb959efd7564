[package]
name = "keygen"
version = "0.1.0"
edition = "2021"
publish = false

[dependencies]
rand = "0.8"
serde = { version = "1", features = ["derive"] }
serde_json = "1"
itertools = "0.10"
chrono = "0.4"
jwalk = "0.8"
rayon = "1"
num_cpus = "1"
getopts = "0.2"
quanta = "*"
