[package]
name = "causal_gossip"
version = "0.1.0"
edition = "2021"
publish = false

[dependencies]
csv = "=1.4.0"
rand = "=0.9.5"
tokio = { version = "=1.53.2", features = ["macros", "rt-multi-thread", "sync", "time"] }
tonic = { version = "=0.14.6", features = ["channel"] }
tonic-prost = "*"
prost = "=0.14.4"
color-print = "=0.3.7"
