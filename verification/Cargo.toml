[package]
name = "json_tree"
version = "0.1.0"
edition = "2021"
publish = false

[dependencies]
serde_json = "1"
tui-tree-widget = "0.19"
ratatui = "0.26"
crossterm = "0.27"
