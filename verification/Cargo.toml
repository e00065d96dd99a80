[package]
name = "spead"
version = "0.1.0"
edition = "2021"
publish = false

[dependencies]
argon2 = "*"
atty = "*"
camino = "*"
clap = { version = "*", features = ["derive"] }
cloudproof_fpe = "*"
rand = "*"
rpassword = "*"
serde_json = { version = "*", features = ["arbitrary_precision"] }
thiserror = "*"

[dev-dependencies]
rand_core = "*"
