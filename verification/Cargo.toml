[package]
name = "llm_utils"
version = "0.1.0"
edition = "2021"
publish = false

[dependencies]
dom_smoothie = "*"
html2text = "*"
linkify = "*"
url = "*"
quick-xml = { version = "*", features = ["serialize"] }
serde = { version = "*", features = ["derive"] }
derive_builder = "*"
thiserror = "*"
