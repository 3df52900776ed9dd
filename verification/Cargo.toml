[package]
name = "rawheap"
version = "0.1.0"
edition = "2021"
publish = false

[dependencies]
serde_json = "=1.0.154"
serde_json_canonicalizer = "=0.4.1"
serde_ipld_dagcbor = "=0.7.0"
rmp-serde = "=1.3.1"
bson = { version = "=3.1.0", features = ["serde"] }
dasl = "=0.2.0"
ion-rs = "=1.2.0"
rusqlite = { version = "=0.41.1", features = ["bundled"] }
