[package]
name = "dotnet_dependency_parser"
version = "0.1.0"
edition = "2021"
publish = false

[dependencies]
petgraph = "*"
rust-sugiyama = "*"
regex = "*"
serde = { version = "1", features = ["derive"] }
serde_json = "1"
