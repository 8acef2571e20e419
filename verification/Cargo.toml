[package]
name = "myrhiza"
version = "0.1.0"
edition = "2021"
publish = false

[dependencies]
blake3 = "=1.8.7"
ed25519-dalek = "=2.2.0"
bech32 = "=0.11.1"
hex = "=0.4.3"
rand = "=0.8.5"
rand_core = { version = "=0.6.4", features = ["getrandom"] }
bincode = "=1.3.3"
serde = { version = "1", features = ["derive"] }
thiserror = "=2.0.21"
tokio = { version = "1", features = ["rt", "rt-multi-thread", "macros", "sync", "time"] }
async-trait = "=0.1.92"
zeroize = { version = "1", features = ["derive"] }
