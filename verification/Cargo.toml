[package]
name = "lapse"
version = "0.1.0"
edition = "2021"
publish = false

[dependencies]
anyhow = "1"
chrono = "0.4"
clap = { version = "4", features = ["derive"] }
natord = "1"
rayon = "1"
tempfile = "3"

[dev-dependencies]
kamadak-exif = "0.5"
image = { version = "0.25", default-features = false, features = ["jpeg"] }
