[package]
name = "commit_pager"
version = "0.1.0"
edition = "2021"
publish = false

[dependencies]
git2 = { version = "0.19", default-features = false }
rand = "0.8"
serde = { version = "1", features = ["derive"] }
serde_json = "1"
anyhow = "1"
axum = "0.6"
tokio = { version = "1", features = ["rt-multi-thread", "macros"] }
structopt = "0.3"
dunce = "1"
tracing = "0.1"
tracing-subscriber = "0.3"
