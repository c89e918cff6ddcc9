[package]
name = "irr"
version = "0.1.0"
edition = "2021"
publish = false

[dependencies]
polars = { version = "=0.55.2", features = ["lazy", "csv", "strings", "regex", "temporal", "dtype-date", "semi_anti_join", "cum_agg"] }
tokio = { version = "=1.54.1", features = ["rt-multi-thread", "macros", "time"] }
clap = { version = "=4.6.7", features = ["derive"] }
rayon = "=1.12.0"
thiserror = "=2.0.21"
log = "=0.4.35"
env_logger = "=0.11.11"
