[package]
name = "dashboard"
version = "0.1.0"
edition = "2021"
publish = false

[dependencies]
chrono = "=0.4.45"
tokio = { version = "=1.54.1", features = ["rt-multi-thread", "macros", "sync", "time"] }
tokio-cron-scheduler = "=0.15.1"
sea-orm = { version = "=1.1.20", features = ["sqlx-sqlite", "runtime-tokio-rustls", "macros"] }
sea-orm-migration = { version = "=1.1.20", default-features = false, features = ["sqlx-sqlite", "runtime-tokio-rustls"] }
async-trait = "=0.1.92"
bme280-rs = "=0.4.1"
linux-embedded-hal = { version = "=0.5.0", default-features = false, features = ["i2c"] }
