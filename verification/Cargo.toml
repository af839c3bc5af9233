[package]
name = "teehistorian_extractor"
version = "0.1.0"
edition = "2021"
publish = false

[dependencies]
teehistorian = "*"
twgame-core = "*"
serde = { version = "*", features = ["derive"] }
serde_json = "*"
log = "*"
colog = "*"
env_logger = "*"
rayon = "*"
