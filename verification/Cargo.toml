[package]
name = "raftfwk"
version = "0.1.0"
edition = "2021"
publish = false

[dependencies]
raft = { version = "=0.6.0", default-features = false, features = ["protobuf-codec"] }
protobuf = { version = "=2.28.0", features = ["with-bytes"] }
rusty-leveldb = "=0.3.6"
bincode = "=1.3.3"
serde = { version = "=1.0.229", features = ["derive"] }
slog = "=2.8.2"
futures = "=0.1.31"
grpcio = { version = "=0.6.0", default-features = false, features = ["protobuf-codec"] }
