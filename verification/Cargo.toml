[package]
name = "winternitz_core"
version = "0.1.0"
edition = "2021"
publish = false

[dependencies]
bitcoin = "=0.32.102"
sha2 = "=0.10.9"
hex = "=0.4.3"
num-bigint = "=0.4.8"
num-traits = "=0.2.19"
ark-bn254 = "=0.4.0"
ark-ff = "=0.4.2"
ark-ec = "=0.4.2"
ark-groth16 = "=0.4.0"
ark-serialize = "=0.4.2"
ark-std = "=0.4.0"
serde = { version = "=1.0.229", features = ["derive"] }
risc0-zkvm = { version = "=1.2.6", default-features = false, features = ["std"] }
rand = { version = "=0.8.8", features = ["small_rng"] }
