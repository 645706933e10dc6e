[package]
name = "file_time_machine"
version = "0.1.0"
edition = "2021"
publish = false

[dependencies]
brotli = "*"
bsdiff = "*"
chrono = "*"
hex = "*"
sha2 = "*"
xxhash-rust = { version = "*", features = ["xxh3"] }
serde = { version = "*", features = ["derive"] }
serde_json = "*"
gumdrop = "*"
inquire = "*"
directories = "*"
num_cpus = "*"
walkdir = "*"
