[package]
name = "rpg_combat"
version = "0.1.0"
edition = "2021"
publish = false

[dependencies]
rand = "=0.9.5"
uuid = { version = "=1.27.0", features = ["v4", "serde"] }
serde = { version = "=1.0.229", features = ["derive"] }
serde_json = "=1.0.151"
serde_yml = "=0.0.12"
tokio = { version = "=1.53.2", features = ["rt-multi-thread", "net", "sync", "io-util", "macros", "time"] }
clap = { version = "=4.6.7", features = ["derive"] }
color-eyre = "=0.6.5"
env_logger = "=0.11.11"
log = "=0.4.34"
ratatui = "=0.29.0"
crossterm = "=0.28.1"
tui-textarea = "=0.7.0"
