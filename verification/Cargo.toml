[package]
name = "parse_logs"
version = "0.1.0"
edition = "2021"
publish = false

[dependencies]
chrono = "0.4"
phf = { version = "0.11", features = ["macros"] }
rusqlite = { version = "*", features = ["bundled", "chrono"] }
structopt = "0.3"

[dev-dependencies]
phf_generator = "0.11"
phf_shared = "0.11"
