[package]
name = "assembler"
version = "0.1.0"
edition = "2021"
publish = false

[dependencies]
mif = { version = "=0.3.0", default-features = false }
toml = "=1.1.8"
serde = { version = "=1.0.229", features = ["derive"] }
serde_derive = "=1.0.229"
clap = { version = "=4.6.7", features = ["derive"] }
clio = { version = "=0.3.5", features = ["clap-parse"] }
