[package]
name = "alarmservice"
version = "0.1.0"
edition = "2021"
publish = false

[dependencies]
chrono = { version = "0.4", default-features = false, features = ["clock", "std"] }
serde = { version = "1", features = ["derive"] }
serde_json = "1"
tokio = { version = "1", features = ["macros", "rt-multi-thread", "sync", "time"] }
async-trait = "0.1"
clap = { version = "4", features = ["derive"] }
sea-orm = { version = "1", default-features = false, features = ["macros", "with-json", "with-chrono"] }
sea-orm-migration = { version = "1", default-features = false }
