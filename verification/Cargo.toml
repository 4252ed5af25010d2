[package]
name = "diarization"
version = "0.1.0"
edition = "2021"
publish = false

[dependencies]
dirs = "5"
futures-util = "0.3"
kaldi-native-fbank = "*"
log = "0.4"
ndarray = "0.16"
ort = { version = "=2.0.0-rc.10", default-features = false, features = ["std", "ndarray", "load-dynamic"] }
reqwest = { version = "0.12", default-features = false, features = ["rustls-tls", "stream"] }
serde = { version = "1", features = ["derive"] }
serde_json = "1"
sqlx = { version = "0.8", default-features = false, features = ["runtime-tokio", "sqlite"] }
thiserror = "2"
tokio = { version = "1", features = ["fs", "io-util", "rt"] }
