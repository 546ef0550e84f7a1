[package]
name = "block_explorer"
version = "0.1.0"
edition = "2021"
publish = false

[dependencies]
anyhow = "1"
chrono = "0.4"
reqwest = { version = "0.12", default-features = false, features = ["json"] }
rocket = { version = "0.5", features = ["json"] }
rocket_cors = "0.6"
rocket_dyn_templates = { version = "0.2", features = ["tera"] }
