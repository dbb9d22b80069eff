[package]
name = "hs_demo"
version = "0.1.0"
edition = "2021"
publish = false

[dependencies]
anyhow = "=1.0.104"
axum = "=0.7.9"
base64 = "=0.22.1"
borsh = "=0.10.4"
clap = { version = "=4.6.7", features = ["derive"] }
env_logger = "=0.11.11"
hotstuff_rs = "=0.4.0"
log = "=0.4.35"
rand_core = { version = "=0.6.4", features = ["getrandom"] }
reqwest = { version = "=0.12.28", features = ["json"] }
serde = { version = "=1.0.229", features = ["derive"] }
serde_json = "=1.0.154"
tokio = { version = "=1.54.1", features = ["full"] }
utoipa = { version = "=4.2.3", features = ["axum_extras"] }
utoipa-swagger-ui = { version = "=7.1.0", features = ["axum", "vendored"] }
uuid = { version = "=1.29.0", features = ["v4", "serde"] }
