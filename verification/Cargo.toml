[package]
name = "pruner"
version = "0.1.0"
edition = "2021"
publish = false

[dependencies]
anyhow = "=1.0.104"
clap = { version = "=4.6.7", features = ["derive"] }
env_logger = "=0.11.11"
globset = "=0.4.20"
ignore = "=0.4.33"
log = "=0.4.34"
lua-pattern = { version = "=0.1.3", features = ["to-regex"] }
rayon = "=1.12.0"
regex = "=1.13.1"
serde = { version = "=1.0.229", features = ["derive"] }
toml = "=1.1.8"
tree-sitter = "=0.27.1"
tree-sitter-loader = "=0.27.1"
url = { version = "=2.5.8", features = ["serde"] }
xdg = "=3.0.0"

[dev-dependencies]
tree-sitter-md = "=0.5.4"
tree-sitter-nix = "=0.3.0"
