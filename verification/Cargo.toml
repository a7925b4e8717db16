[package]
name = "conways"
version = "0.1.0"
edition = "2021"
publish = false

[dependencies]
crossterm = "=0.25.0"
rusqlite = { version = "=0.40.2", features = ["bundled"] }
tui = "=0.19.0"
tui-input = "=0.6.1"
