[package]
name = "gdfm"
version = "0.1.0"
edition = "2021"
publish = false

[dependencies]
clap = "=4.6.7"
console = "=0.16.6"
dialoguer = "=0.12.0"
dirs = "=7.0.0"
indicatif = "=0.18.6"
miette = "=7.6.0"
octocrab = "=0.44.1"
sqlx = { version = "=0.9.0", default-features = false, features = ["sqlite", "runtime-tokio", "migrate", "macros"] }
tokio = { version = "=1.53.2", features = ["full"] }
