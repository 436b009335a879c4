[package]
name = "quipquick"
version = "0.1.0"
edition = "2021"
publish = false

[dependencies]
chrono = "*"
clap = { version = "*", features = ["derive"] }
dateparser = "*"
handlebars = "*"
html-escape = "*"
image = "*"
inquire = "*"
markdown = "*"
rss = "*"
serde = { version = "*", features = ["derive"] }
serde_json = "*"
serde_yaml = "*"
slugify = "*"
titlecase = "*"
toml = "*"
toml_edit = "*"
