[package]
name = "candela"
version = "0.1.0"
edition = "2021"
publish = false

[dependencies]
multimap = "=0.10.1"
rayon = "=1.12.0"
clap = { version = "=4.6.7", features = ["derive"] }
clap_complete_command = "=0.6.1"
jwalk = "=0.9.0"
hf = "=0.6.0"
inquire = "=0.9.4"
serde = { version = "=1.0.229", features = ["derive"] }
serde_json = "=1.0.151"
size = "=0.5.0"
spinoff = "=0.8.0"
