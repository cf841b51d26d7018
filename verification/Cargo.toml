[package]
name = "notez"
version = "0.1.0"
edition = "2021"
publish = false

[dependencies]
dirs = "5"
chrono = "0.4"
clap = { version = "4", features = ["derive"] }
clap_complete = "4"
console = "0.15"
crossterm = "0.28"
ratatui = "0.29"
dialoguer = "0.11"
rustyline = "14"
