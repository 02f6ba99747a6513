[package]
name = "astro_core"
version = "0.1.0"
edition = "2021"
publish = false

[dependencies]
sysinfo = "*"
log = "*"
env_logger = "*"
clap = { version = "*", features = ["derive"] }
anyhow = "*"
thiserror = "*"
serde = { version = "*", features = ["derive"] }
rayon = "*"
