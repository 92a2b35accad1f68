[package]
name = "wayhud"
version = "1.0.0"
edition = "2021"
publish = false

[dependencies]
anyhow = "1"
clap = { version = "4", features = ["derive"] }
gtk4 = { version = "*", features = ["v4_12"] }
gtk4-layer-shell = "*"
libpulse-binding = "*"
libpulse-simple-binding = "*"
pangocairo = "*"
serde = { version = "1", features = ["derive"] }
swayipc = "*"
toml = "*"
