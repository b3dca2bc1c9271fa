[package]
name = "kv_store"
version = "0.1.0"
edition = "2021"
publish = false

[dependencies]
anyhow = "1"
k8s-openapi = { version = "0.24", features = ["latest"] }
kube = { version = "0.98" }
omnipaxos = { version = "*", features = ["serde"] }
omnipaxos_storage = { version = "*", features = ["persistent_storage"] }
rocksdb = "*"
serde = { version = "1", features = ["derive"] }
serde_json = "1"
tokio = { version = "1", features = ["full"] }
