[package]
name = "meilidb"
version = "0.1.0"
edition = "2021"
publish = false

[dependencies]
hashbrown = "=0.17.1"
bincode = "=1.3.3"
serde = { version = "=1.0.229", features = ["derive"] }
serde_json = { version = "=1.0.154", features = ["preserve_order"] }
log = "=0.4.34"
structopt = "=0.3.26"
envconfig = "=0.11.1"
rocket = { version = "0.5", features = ["json"] }
rocksdb = "*"
jemallocator = "*"
