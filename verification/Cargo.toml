[package]
name = "anonit"
version = "0.1.0"
edition = "2021"
publish = false

[dependencies]
serde = { version = "=1.0.229", features = ["derive"] }
serde_json = { version = "=1.0.154", features = ["arbitrary_precision", "preserve_order"] }
fake = { version = "=5.1.0", features = ["uuid"] }
uuid = "=1.29.0"
rand = "=0.8.8"
num-bigint = { version = "=0.4.8", features = ["rand", "serde"] }
bigdecimal = { version = "=0.4.11", features = ["serde"] }
eyre = "=0.6.14"
clap = { version = "=4.6.7", features = ["derive"] }
inquire = "=0.7.5"
itertools = "=0.15.0"
strum = { version = "=0.26.3", features = ["derive"] }
thiserror = "=2.0.21"
typetag = "=0.2.23"
