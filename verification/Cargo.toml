[package]
name = "ethereum_sentry"
version = "0.1.0"
edition = "2021"
publish = false

[dependencies]
sha3 = "*"
sha2 = "*"
hmac = "*"
hex = "*"
secp256k1 = { version = "0.20", features = ["global-context", "rand-std"] }
rlp = "*"
ethereum-types = "*"
ethereum-forkid = "*"
tokio = { version = "1", features = ["sync", "rt-multi-thread", "macros", "time"] }
parking_lot = "*"
clap = { version = "4", features = ["derive"] }
anyhow = "1"
tracing = "*"
tracing-subscriber = { version = "*", features = ["env-filter"] }
fdlimit = "*"
