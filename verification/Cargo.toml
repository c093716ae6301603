[package]
name = "gitea_mirror_sync"
version = "0.1.0"
edition = "2021"
publish = false

[dependencies]
anyhow = "1"
backon = "1"
chrono = "0.4"
clap = { version = "4", features = ["derive"] }
cron = "0.15"
dotenvy = "0.15"
figment = { version = "0.10", features = ["env"] }
regex = "1"
reqwest = { version = "0.12", default-features = false, features = ["json", "rustls-tls"] }
serde = { version = "1", features = ["derive"] }
serde_json = "1"
sha2 = "0.10"
tokio = { version = "1", features = ["macros", "rt-multi-thread", "signal", "time"] }
tracing = "0.1"
tracing-subscriber = { version = "0.3", features = ["env-filter"] }
