[package]
name = "biblatex"
version = "0.1.0"
edition = "2021"

[dependencies]
serde = { version = "1", features = ["derive"] }
quick-xml = { version = "*", features = ["serialize"] }
