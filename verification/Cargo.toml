[package]
name = "sort_gitignore"
version = "0.1.0"
edition = "2021"
publish = false

[dependencies]
dashmap = "5"
tower-lsp = "0.20"
tokio = { version = "1", features = ["io-std", "macros", "rt-multi-thread"] }
zed_extension_api = "0.7"
