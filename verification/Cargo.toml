[package]
name = "tabletd_core"
version = "0.1.0"
edition = "2021"
publish = false

[dependencies]
drm = "*"
gbm = "*"
tempfile = "*"
tokio = { version = "*", features = ["rt-multi-thread", "sync", "time", "macros"] }
wayland-client = "*"
wayland-protocols-wlr = { version = "*", features = ["client"] }
