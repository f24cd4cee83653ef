[package]
name = "codex_thread_tree"
version = "0.1.0"
edition = "2021"
publish = false

[dependencies]
crossterm = "0.28"
ratatui = "0.29"
tracing = "0.1"
