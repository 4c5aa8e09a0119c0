[package]
name = "zcash_walletd"
version = "0.1.0"
edition = "2021"
publish = false

[dependencies]
sapling-crypto = "=0.7.0"
orchard = "=0.15.5"
zip32 = "=0.2.1"
zcash_client_backend = { version = "=0.24.0", features = ["orchard"] }
zcash_note_encryption = "=0.4.2"
zcash_protocol = "=0.10.6"
anyhow = "*"
serde = { version = "*", features = ["derive"] }
serde_json = "*"
tokio = { version = "*", features = ["rt-multi-thread", "macros", "time"] }
rocket = { version = "*", features = ["json"] }
tonic = "*"
tonic-prost = "*"
prost = "*"
reqwest = { version = "*", default-features = false }
clap = { version = "*", features = ["derive"] }
figment = { version = "*", features = ["env", "json"] }
dotenv = "*"
tracing = "*"
tracing-subscriber = { version = "*", features = ["env-filter", "fmt"] }
log = "*"
async-trait = "*"

[dev-dependencies]
rand_core = "=0.6.4"
