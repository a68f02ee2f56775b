[package]
name = "zip2dmg"
version = "0.1.0"
edition = "2021"
publish = false

[dependencies]
anyhow = "=1.0.104"
base64 = "=0.22.1"
clap = { version = "=4.6.7", features = ["derive"] }
env_logger = "=0.11.11"
fstool = "=0.5.2"
log = "=0.4.35"
plist = "=1.10.3"
udif = "=0.4.2"
uuid = "=1.29.0"
zip = "=8.6.0"

[dev-dependencies]
ds_store = "=0.3.0"
