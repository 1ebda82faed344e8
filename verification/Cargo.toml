[package]
name = "carp"
version = "0.1.0"
edition = "2021"
publish = false

[dependencies]
anyhow = "*"
clap = { version = "*", features = ["derive"] }
dirs = "*"
discord-rich-presence = "*"
log = "*"
simplelog = "*"
sysinfo = "*"
