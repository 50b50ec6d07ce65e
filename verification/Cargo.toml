[package]
name = "mutils"
version = "0.1.0"
edition = "2021"
publish = false

[dependencies]
anyhow = "1"
chrono = "0.4"
clap = { version = "4", features = ["derive"] }
ctrlc = "3"
enigo = "*"
log = "0.4"
postcard = { version = "1", features = ["alloc"] }
rstar = "*"
serde = { version = "1", features = ["derive"] }
simplelog = "0.12"
thiserror = "*"
