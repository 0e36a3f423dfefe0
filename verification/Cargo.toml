[package]
name = "zkgadgets"
version = "0.1.0"
edition = "2021"
publish = false

[dependencies]
ark-bls12-377 = { version = "0.4", features = ["r1cs"] }
ark-bw6-761 = "0.4"
ark-ec = "0.4"
ark-ff = "0.4"
ark-relations = "0.4"
ark-r1cs-std = "0.4"
ark-groth16 = "0.4"
ark-snark = "0.4"
ark-std = "0.4"
ark-crypto-primitives = { version = "0.4", features = ["crh", "r1cs"] }
ark-ed-on-bls12-377 = { version = "0.4", features = ["r1cs"] }
