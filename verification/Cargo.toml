[package]
name = "concept_graph"
version = "0.1.0"
edition = "2021"
publish = false

[dependencies]
anyhow = "*"
pulldown-cmark = "*"
rand = "*"
serde = { version = "*", features = ["derive"] }
serde_json = "*"
walkdir = "*"
