[package]
name = "nodescheduler"
version = "0.8.0"
edition = "2021"
publish = false

[dependencies]
anyhow = "1"
async-trait = "0.1"
base64 = "0.22"
cel = "*"
http = "1"
k8s-openapi = { version = "*", features = ["latest"] }
kube = { version = "*", default-features = false, features = ["client", "rustls-tls", "ring"] }
num-bigint = "0.4"
num-rational = "0.4"
num-traits = "0.2"
reqwest = { version = "0.12", default-features = false, features = ["json", "rustls-tls"] }
rustls = { version = "0.23", default-features = false, features = ["ring", "std", "tls12"] }
serde = { version = "1", features = ["derive"] }
serde_json = "1"
tokio = { version = "1", features = ["full"] }
tracing = "0.1"
tracing-subscriber = { version = "0.3", features = ["env-filter"] }
