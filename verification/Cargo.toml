[package]
name = "full_page_recommender"
version = "0.1.0"
edition = "2021"
publish = false

[dependencies]
pyo3 = "*"
rand = "0.9"
serde = { version = "1", features = ["derive"] }
serde_json = "1"
