[package]
name = "argvtype"
version = "0.1.0"
edition = "2021"
publish = false

[dependencies]
tree-sitter = "*"
tree-sitter-bash = "*"
serde = { version = "1", features = ["derive"] }
serde_json = "1"
thiserror = "*"
miette = "*"
clap = { version = "4", features = ["derive"] }
