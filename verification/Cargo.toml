[package]
name = "markov_bot"
version = "0.1.0"
edition = "2021"
publish = false

[dependencies]
regex = "*"
serde_json = "*"
markov = "*"
lindera = "*"
rand = "*"
chrono = "*"
anyhow = "*"
dotenv = "*"
env_logger = "*"
log = "*"
once_cell = "*"
tokio = { version = "*", features = ["macros", "rt-multi-thread", "time"] }
reqwest = { version = "*", default-features = false, features = ["rustls-tls"] }
sqlx = { version = "0.8", features = ["runtime-tokio", "mysql", "chrono"] }
tokio-cron-scheduler = "*"
traq-ws-bot = "*"
