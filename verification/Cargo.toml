[package]
name = "d3j"
version = "0.1.0"
edition = "2021"
publish = false

[dependencies]
tree-sitter = "0.25"
tree-sitter-rust = "*"
tree-sitter-java = "*"
tree-sitter-json = "*"
serde = { version = "1", features = ["derive"] }
serde_json = "1"
thiserror = "*"
miette = { version = "*", features = ["fancy"] }
clap = { version = "4", features = ["derive"] }
clap_complete = "4"
fs-err = "*"
tracing = "*"
tracing-subscriber = { version = "*", features = ["env-filter"] }
