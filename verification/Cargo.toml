[package]
name = "lyricforge"
version = "0.1.0"
edition = "2021"
publish = false

[dependencies]
regex = "1"
hyphenation = { version = "0.8", features = ["embed_all"] }
rusqlite = { version = "*", features = ["bundled"] }
serde = { version = "1", features = ["derive"] }
