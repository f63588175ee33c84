[package]
name = "agni"
version = "0.1.0"
edition = "2021"
publish = false

[dependencies]
actix-files = "0.6"
actix-web = { version = "4", default-features = false, features = ["macros"] }
bytes = "1"
chrono = { version = "0.4", default-features = false, features = ["std", "clock"] }
log = "0.4"
lru-cache = "0.1"
percent-encoding = "2"
pnet = "*"
pretty_env_logger = "*"
regex = "1"
roxmltree = "*"
strong-xml = "0.6"
tokio = { version = "1", features = ["fs", "macros", "net", "rt-multi-thread", "time"] }
uuid = { version = "1", features = ["v4"] }
