[package]
name = "fraud_api"
version = "0.1.0"
edition = "2021"
publish = false

[dependencies]
actix-web = { version = "4", default-features = false }
anyhow = "1"
flate2 = "1"
httparse = "1"
libc = "0.2"
memmap2 = "0.9"
nix = { version = "0.29", features = ["socket", "uio"] }
rand = { version = "0.9", features = ["small_rng"] }
rayon = "1"
serde = { version = "1", features = ["derive"] }
serde_json = "1"
tokio = { version = "1", features = ["net", "rt", "time"] }
tracing = "0.1"
tracing-subscriber = { version = "0.3", features = ["env-filter"] }
bytemuck = { version = "1", features = ["derive", "min_const_generics"] }
