[package]
name = "engram"
version = "0.1.0"
edition = "2021"
publish = false

[dependencies]
pasta_curves = "*"
ff = "*"
sha2 = "*"
serde = { version = "1", features = ["derive"] }
serde_json = "1"
bincode = "1"
sysinfo = "*"
rand = "0.8"
rand_chacha = "0.3"
configparser = "*"
hex = "*"
nova-snark = "*"
bellpepper-core = "*"

[dev-dependencies]
