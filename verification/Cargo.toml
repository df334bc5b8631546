[package]
name = "docker_bisect"
version = "0.1.0"
edition = "2021"
publish = false

[dependencies]
clap = "=4.6.7"
colored = "=3.1.1"
dockworker = "=0.17.0"
futures = "=0.3.34"
indicatif = "=0.18.6"
rand = "=0.10.3"
terminal_size = "=0.4.4"
tokio = { version = "=1.53.2", features = ["rt"] }
