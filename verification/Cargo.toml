[package]
name = "vfd"
version = "1.4.3"
edition = "2021"
publish = false

[dependencies]
pulldown-cmark = { version = "=0.9.6", default-features = false }
unidecode = "=0.3.0"
url = "=2.5.8"
palette = "=0.6.1"
urlencoding = "=2.1.3"
clap = "=3.2.25"
inquire = { version = "=0.5.3", features = ["date"] }
chrono = "=0.4.45"
serde = { version = "=1.0.229", features = ["derive"] }
serde_yaml = "=0.8.26"
serde_json = "=1.0.154"
tera = { version = "=1.20.1", default-features = false }
walkdir = "=2.5.0"
html-minifier = "=3.0.15"
image = { version = "=0.24.9", default-features = false, features = ["png", "jpeg"] }
ico = "=0.2.0"
reqwest = { version = "=0.11.27", default-features = false }
futures = "=0.3.34"
tokio = { version = "=1.54.1", features = ["macros", "rt-multi-thread"] }
axum = "=0.2.8"
tower-http = { version = "=0.1.3", features = ["fs"] }
hotwatch = "=0.4.6"
webbrowser = "=0.7.1"
imageproc = { version = "=0.23.1", default-features = false }
oxipng = { version = "=5.0.1", default-features = false }
rand = { version = "=0.8.8", features = ["small_rng"] }
