[package]
name = "dts-lsp"
version = "0.1.0"
edition = "2021"

[dependencies]
tokio = { version = "=1.54.1", features = ["io-std", "macros", "rt-multi-thread"] }
tower-lsp = "=0.20.0"
tree-sitter = "=0.22.6"
tree-sitter-devicetree = "=0.11.1"
