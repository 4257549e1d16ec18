[package]
name = "semantex-core"
version = "0.1.0"
edition = "2021"
publish = false

[dependencies]
anyhow = "1"
async-trait = "0.1"
dirs = "*"
genai = "0.5"
indicatif = "*"
instant-distance = { version = "0.6", features = ["with-serde"] }
postcard = { version = "1", features = ["use-std"] }
rusqlite = { version = "*", features = ["bundled"] }
serde = { version = "1", features = ["derive"] }
serde_json = "1"
sha2 = "0.10"
tokio = { version = "1", features = ["process", "time", "io-util", "rt", "macros"] }
tracing = "0.1"
which = "*"
