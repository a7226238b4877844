[package]
name = "pod_compose"
version = "0.1.0"
edition = "2021"
publish = false

[dependencies]
blake3 = "*"
anyhow = "*"
serde = { version = "*", features = ["derive"] }
serde_yaml = "*"
structopt = "*"
crossterm = "*"
log = "*"
pretty_env_logger = "*"
ignore = "*"
tar = "*"
tempfile = "*"
number_prefix = "*"
varlink = "*"
