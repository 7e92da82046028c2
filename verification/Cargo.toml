[package]
name = "racelogic_vbo"
version = "0.1.1"
edition = "2021"
publish = false

[dependencies]
memchr = "2"
csv = "1"
serde = { version = "1", features = ["derive"] }
thiserror = "2"
lexical-core = "1"
parquet = { version = "*", default-features = false }

[dev-dependencies]
serde_json = "1"
bytes = "1"
