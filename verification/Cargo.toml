[package]
name = "waylauncher"
version = "0.1.0"
edition = "2021"
publish = false

[dependencies]
shell-words = "=1.1.1"
freedesktop-desktop-entry = { version = "=0.8.4", default-features = false }
clap = { version = "=4.6.7", features = ["derive"] }
dirs = "=7.0.0"
log = "=0.4.35"
env_logger = "=0.11.11"
gtk4 = { version = "=0.11.5", features = ["v4_14"] }
glib = "=0.22.10"
gtk4-layer-shell = "=0.8.1"
