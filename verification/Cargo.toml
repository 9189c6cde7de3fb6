[package]
name = "station_stats"
version = "0.1.0"
edition = "2021"
publish = false

[dependencies]
halfbrown = "*"
fast-float = "*"
memmap = "*"
tokio = { version = "*", features = ["macros", "rt-multi-thread"] }
