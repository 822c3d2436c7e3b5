[package]
name = "tile_xenium"
version = "0.1.0"
edition = "2021"
publish = false

[dependencies]
clap = { version = "=4.6.7", features = ["derive"] }
polars = { version = "=0.55.2", features = ["lazy", "parquet"] }
