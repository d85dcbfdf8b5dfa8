[package]
name = "csv_sql_loader"
version = "0.1.0"
edition = "2021"
publish = false

[dependencies]
chrono = "*"
clap = { version = "*", features = ["derive"] }
csv = "*"
tokio = { version = "*", features = ["macros", "rt-multi-thread", "time"] }
tokio-postgres = "*"
futures-util = "*"
bytes = "*"
indicatif = "*"
tracing = "*"
tracing-subscriber = { version = "*", features = ["env-filter"] }
thiserror = "*"
