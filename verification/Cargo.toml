[package]
name = "llms_fetch_mcp"
version = "0.1.0"
edition = "2021"
publish = false

[dependencies]
pulldown-cmark = "*"
url = "*"
dom_smoothie = "*"
html2md = "*"
clap = { version = "*", features = ["derive"] }
reqwest = { version = "*", default-features = false }
rmcp = { version = "*", features = ["server", "macros", "transport-io"] }
schemars = "*"
serde = { version = "*", features = ["derive"] }
tokio = { version = "*", features = ["full"] }
