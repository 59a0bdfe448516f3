[package]
name = "sync_dir"
version = "0.1.0"
edition = "2021"
publish = false

[dependencies]
im = "=15.1.0"
regex = "=1.13.1"
serde = { version = "=1.0.229", features = ["derive"] }
serde_json = "=1.0.154"
clap = "=2.34.0"
log = "=0.4.35"
log4rs = { version = "=0.8.3", default-features = false, features = ["console_appender", "file_appender"] }
log4rs-syslog = "=3.0.3"
