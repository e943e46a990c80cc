[package]
name = "i18n_hero"
version = "0.1.0"
edition = "2021"
publish = false

[dependencies]
clap = { version = "*", features = ["derive"] }
dialoguer = "*"
serde = { version = "*", features = ["derive"] }
tokio = { version = "*", features = ["macros", "rt-multi-thread", "io-std", "time", "sync"] }
toml = "*"
tower-lsp-server = "*"
tracing = "*"
tracing-subscriber = "*"
