[package]
name = "ironland-copositor"
version = "0.1.0"
edition = "2021"
publish = false

[dependencies]
serde = { version = "1", features = ["derive"] }
serde_json = "1"
toml = "*"
tracing = "0.1"
tracing-subscriber = { version = "0.3", features = ["env-filter"] }
smithay = { version = "*", default-features = false }
image = { version = "*", default-features = false, features = ["png", "webp"] }
wayland-client = "*"
wayland-protocols = { version = "*", features = ["client", "staging"] }
calloop = "*"
calloop-wayland-source = "*"
