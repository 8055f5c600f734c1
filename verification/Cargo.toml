[package]
name = "seqfetch"
version = "0.1.0"
edition = "2021"
publish = false

[dependencies]
tokio = { version = "*", features = ["rt-multi-thread", "macros", "sync"] }
reqwest = { version = "*", default-features = false }
clap = { version = "*", features = ["derive"] }
dotenv = "*"
env_logger = "*"
log = "*"
num_cpus = "*"
