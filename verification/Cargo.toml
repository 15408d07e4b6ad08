[package]
name = "sysctl_mutator"
version = "0.1.0"
edition = "2021"
publish = false

[dependencies]
axum = "0.8"
axum-server = { version = "0.7", features = ["tls-rustls"] }
clap = { version = "4", features = ["derive", "env"] }
futures = "0.3"
json-patch = "4"
k8s-openapi = { version = "0.25", features = ["latest"] }
kube = { version = "1.1", features = ["runtime", "admission"] }
mimalloc = "0.1"
rustls = { version = "0.23", default-features = false, features = ["ring", "std"] }
serde_json = "1"
tokio = { version = "1", features = ["full"] }
tracing = "0.1"
tracing-subscriber = { version = "0.3", features = ["env-filter"] }
