[package]
name = "vest_db"
version = "0.1.0"
edition = "2021"
publish = false

[dependencies]
async-lsp = "0.2"
lsp-types = "0.95"
tokio = { version = "1", features = ["rt", "macros", "io-std"] }
tokio-util = { version = "0.7", features = ["compat"] }
tower = "0.5"
tracing = "0.1"
tracing-subscriber = "0.3"
tree-sitter = "0.25"
tree-sitter-language = "0.1"
thiserror = "2"
