[package]
name = "sgraffito"
version = "0.1.0"
edition = "2021"
publish = false

[dependencies]
anyhow = "=1.0.104"
calloop = { version = "=0.14.5", features = ["signals"] }
calloop-wayland-source = "=0.4.1"
cosmic-text = "=0.19.0"
serde = { version = "=1.0.229", features = ["derive"] }
serde_json = "=1.0.154"
smithay-client-toolkit = "=0.21.1"
tiny-skia = "=0.12.0"
wayland-client = "=0.31.15"
wayland-protocols = { version = "=0.32.13", features = ["client", "unstable"] }

[dev-dependencies]
xkeysym = "=0.2.1"
