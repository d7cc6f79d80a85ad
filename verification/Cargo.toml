[package]
name = "kubefs"
version = "0.1.0"
edition = "2021"
publish = false

[dependencies]
clap = "4"
fuse = "0.3"
k8s-openapi = { version = "*", features = ["latest"] }
kube = { version = "*", default-features = false, features = ["client", "rustls-tls"] }
libc = "0.2"
log = "0.4"
serde = "1"
serde_json = "1"
serde_yaml = "0.9"
time = "0.1"
tokio = { version = "1", features = ["rt-multi-thread"] }
users = "0.11"
