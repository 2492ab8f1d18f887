[package]
name = "codex-context-tree"
version = "0.1.0"
edition = "2021"
publish = false

[dependencies]
async-trait = "0.1"
async-recursion = "1"
thiserror = "2"
futures = "0.3"
ratatui = "0.29"
crossterm = "0.28"
textwrap = "0.16"
serde_json = "1"
