[package]
name = "extsort"
version = "0.1.0"
edition = "2021"
publish = false

[dependencies]
clap = { version = "4", features = ["derive"] }
log = "0.4"
log4rs = { version = "1", default-features = false, features = ["console_appender", "json_encoder"] }
rand = { version = "0.8", features = ["small_rng"] }
tokio = { version = "1", features = ["rt-multi-thread", "macros"] }
