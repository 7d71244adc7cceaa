[package]
name = "activity_ledger"
version = "0.1.0"
edition = "2021"
rust-version = "1.95"
publish = false

[dependencies]
rusqlite = { version = "=0.40.2", features = ["bundled"] }
takecell = "=0.1.1"
teloxide = { version = "=0.17.0", features = ["macros"] }
tokio = { version = "*", features = ["macros", "rt-multi-thread"] }
dptree = "*"
log = "*"
log4rs = "*"
