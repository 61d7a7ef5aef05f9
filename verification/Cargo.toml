[package]
name = "apotheosis"
version = "0.1.0"
edition = "2021"
publish = false

[dependencies]
rand = "=0.9.5"
tlsh2 = { version = "=1.1.0", features = ["diff"] }
ssdeep = "=0.7.0"
serde = { version = "=1.0.229", features = ["derive"] }
serde_json = "=1.0.154"
bincode = "=1.3.3"
clap = { version = "=4.6.7", features = ["derive"] }
rayon = "=1.12.0"
