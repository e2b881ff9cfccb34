[package]
name = "arbvis"
version = "0.1.0"
edition = "2021"
publish = false

[dependencies]
ab_glyph = "0.2"
anyhow = "1"
async-trait = "0.1"
clap = { version = "4", features = ["derive"] }
env_logger = "0.11"
fast_hilbert = "2"
futures = "0.3"
half = "2"
image = { version = "0.25", default-features = false, features = ["png"] }
imageproc = { version = "0.25", default-features = false }
indicatif = "0.17"
indicatif-log-bridge = "0.2"
log = "0.4"
memmap2 = "0.9"
minifb = { version = "0.28", default-features = false, features = ["x11"] }
rayon = "1"
regex = "1"
reqwest = { version = "0.12", default-features = false, features = ["json", "rustls-tls"] }
serde = { version = "1", features = ["derive"] }
serde_json = "1"
tempfile = "3"
tokio = { version = "1", features = ["full"] }
