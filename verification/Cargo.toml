[package]
name = "blobsy_aggregator"
version = "0.1.0"
edition = "2021"
publish = false

[dependencies]
alloy-eips = { version = "=0.9.2", features = ["kzg"] }
alloy-primitives = "=0.8.26"
alloy-provider = { version = "=0.9.2", default-features = false, features = ["reqwest", "ws", "pubsub"] }
alloy-rpc-types-eth = "=0.9.2"
alloy-signer-local = "=0.9.2"
alloy-sol-types = "=0.8.26"
alloy-transport-ws = "=0.9.2"
eyre = "=0.6.14"
integer-encoding = "=4.1.0"
jsonrpsee = { version = "=0.24.11", default-features = false, features = ["server"] }
serde = { version = "=1.0.219", features = ["derive"] }
sha2 = "=0.10.9"
time = "=0.3.44"
tokio = { version = "=1.54.1", features = ["rt-multi-thread", "macros", "sync", "time"] }
tokio-util = "=0.7.20"
tracing = "=0.1.44"
tracing-subscriber = { version = "=0.3.23", default-features = false, features = ["fmt", "std"] }
uuid = "=1.29.0"
