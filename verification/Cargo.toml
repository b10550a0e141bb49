[package]
name = "sequencer"
version = "0.1.0"
edition = "2021"
publish = false

[dependencies]
clap = { version = "4", features = ["derive"] }
nix = { version = "0.29", features = ["fs", "process", "signal", "term", "user"] }
serde = { version = "1", features = ["derive"] }
signal-hook = "0.3"
thiserror = "2"
toml = "0.8"
toml_edit = "0.22"
tracing = "0.1"
tracing-subscriber = "0.3"
