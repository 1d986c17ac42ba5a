[package]
name = "piranha"
version = "0.1.0"
edition = "2021"
publish = false

[dependencies]
tree-sitter = "0.20.6"
tree-sitter-traversal = "0.1.2"
tree-sitter-java = "0.20.0"
regex = "1.5.5"
itertools = "0.10.3"
toml = "0.5.8"
serde = { version = "1.0.136", features = ["derive"] }
clap = { version = "3.1.12", features = ["derive"] }
jwalk = "0.6.0"
log = "0.4.16"
env_logger = "0.9.0"
colored = "2.0.0"
