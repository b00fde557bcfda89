[package]
name = "blorg"
version = "0.1.0"
edition = "2021"
publish = false

[dependencies]
pulldown-cmark = "*"
chrono = "*"
slab_tree = "*"
rocket = { version = "0.5", features = ["json", "secrets"] }
rocket_dyn_templates = { version = "0.1", features = ["handlebars"] }
rust-crypto = "*"
image = "0.24"
tempdir = "*"
slugify = "*"
pandoc = "*"
serde = { version = "1", features = ["derive"] }
