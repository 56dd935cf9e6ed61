[package]
name = "pgp_challenger"
version = "0.1.0"
edition = "2021"
publish = false

[dependencies]
alloy-primitives = { version = "=1.7.3", default-features = false, features = ["std"] }
ark-bn254 = { version = "=0.5.0", default-features = false, features = ["std", "curve"] }
ark-ec = { version = "=0.5.0", default-features = false, features = ["std"] }
ark-ff = { version = "=0.5.0", default-features = false, features = ["std"] }
ark-groth16 = { version = "=0.5.0", default-features = false, features = ["std"] }
ark-serialize = { version = "=0.5.0", default-features = false, features = ["std"] }
ark-snark = { version = "=0.5.1", default-features = false }
async-trait = "=0.1.92"
c-kzg = "=2.1.8"
clap = { version = "=4.6.7", default-features = false, features = ["std", "derive", "help"] }
eyre = { version = "=0.6.14", default-features = false }
hex = "=0.4.3"
lru = "=0.12.5"
num-bigint = "=0.4.8"
semaphore-rs-poseidon = "=0.6.0"
reqwest = { version = "=0.12.28", default-features = false, features = ["json"] }
rusqlite = { version = "=0.32.1", features = ["bundled"] }
serde = { version = "=1.0.229", features = ["derive"] }
serde_json = "=1.0.154"
sha2 = "=0.10.9"
tempfile = "=3.27.0"
tokio = { version = "=1.54.1", default-features = false, features = ["macros", "rt-multi-thread", "signal", "time"] }
tracing = { version = "=0.1.44", default-features = false, features = ["std"] }
tracing-subscriber = { version = "=0.3.23", default-features = false, features = ["std", "fmt"] }
