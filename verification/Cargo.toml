[package]
name = "dockrs"
version = "0.1.0"
edition = "2021"
publish = false

[dependencies]
bollard = "0.16"
chrono = "0.4"
clap = { version = "4", features = ["derive"] }
clap_complete = "4"
color-eyre = "0.6"
crossterm = "0.27"
futures = "0.3"
prettytable-rs = "0.10"
tokio = { version = "1", features = ["full"] }
tracing = "0.1"
tracing-subscriber = { version = "0.3", features = ["env-filter"] }
