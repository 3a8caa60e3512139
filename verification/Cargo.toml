[package]
name = "netcdf_core"
version = "0.1.0"
edition = "2021"
publish = false

[dependencies]
netcdf = "0.9"
serde = { version = "1", features = ["derive"] }
serde_json = "1"
thiserror = "1"
