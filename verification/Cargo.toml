[package]
name = "omni_lint"
version = "0.1.0"
edition = "2021"
publish = false

[dependencies]
anyhow = "=1.0.104"
globset = "=0.4.21"
rayon = "=1.12.0"
serde = { version = "=1.0.229", features = ["derive"] }
serde_json = "=1.0.154"
toml = "=1.1.8"
wasmtime = "=45.0.3"
wasmtime-wasi = "=45.0.3"
