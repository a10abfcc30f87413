[package]
name = "markov_chain"
version = "0.1.0"
edition = "2021"
publish = false

[dependencies]
anyhow = "=1.0.104"
async-trait = "=0.1.92"
chrono = { version = "=0.4.45", features = ["serde"] }
dotenv = "=0.15.0"
hyper = { version = "=0.14.32", features = ["full"] }
itertools = "=0.10.5"
lazy_static = "=1.5.1"
rand = "=0.8.8"
reqwest = { version = "=0.11.27", default-features = false, features = ["json", "rustls-tls"] }
serde = { version = "=1.0.229", features = ["derive"] }
sqlx = { version = "0.6", features = ["runtime-tokio-rustls", "postgres", "chrono", "uuid", "migrate", "macros"] }
tokio = { version = "=1.54.1", features = ["full"] }
twitch-irc = { version = "=2.2.0", features = ["refreshing-token"] }
url = "=2.5.8"
uuid = "1"
