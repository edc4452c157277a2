[package]
name = "kube_proto"
version = "0.1.0"
edition = "2021"
publish = false

[dependencies]
prost = "*"
prost-types = "*"
bytes = "*"
serde_json = "*"
base64 = "*"
