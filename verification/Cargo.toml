[package]
name = "minka_ledger"
version = "0.1.0"
edition = "2021"
publish = false

[dependencies]
chrono = "=0.4.45"
rrule = "=0.14.0"
rusqlite = { version = "=0.41.1", features = ["bundled", "hooks"] }
serde = { version = "=1.0.229", features = ["derive"] }
serde_json = "=1.0.154"
csv = "=1.4.0"
ureq = "=3.5.1"
