[package]
name = "print_junk"
version = "0.1.0"
edition = "2021"
publish = false

[dependencies]
csv = "1"
pulldown-cmark = { version = "0.13", default-features = false }
ttf-parser = "*"
lopdf = "*"
tokio = { version = "1", features = ["fs", "rt", "rt-multi-thread"] }
serde = { version = "1", features = ["derive"] }
serde_json = "1"
base64 = "0.22"
thiserror = "2"
