[package]
name = "swarm_discovery"
version = "0.1.0"
edition = "2021"
publish = false

[dependencies]
rand = "=0.10.3"
tokio = { version = "=1.53.2", features = ["rt-multi-thread", "net", "time", "sync", "macros"] }
socket2 = { version = "=0.6.5", features = ["all"] }
tracing = "=0.1.44"
thiserror = "=2.0.21"
hickory-proto = "=0.26.3"
