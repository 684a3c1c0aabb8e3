[package]
name = "nilla"
version = "0.1.0"
edition = "2021"
publish = false

[dependencies]
anyhow = "1"
clap = { version = "4", features = ["derive"] }
clap_complete = "4"
fern = { version = "0.7", features = ["colored"] }
log = "0.4"
tokio = { version = "1", features = ["macros", "rt-multi-thread", "process"] }
which = "7"
