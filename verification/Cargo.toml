[package]
name = "oxide_seeker"
version = "0.1.0"
edition = "2021"
publish = false

[dependencies]
anyhow = "1"
axum = { version = "0.7", features = ["multipart", "ws"] }
base64 = "=0.22.1"
bincode = "=1.3.3"
chrono = { version = "=0.4.45", default-features = false, features = ["clock", "std"] }
hnsw_rs = "0.3"
image = { version = "=0.25.10", default-features = false, features = ["png", "jpeg", "webp", "bmp", "gif", "tiff"] }
image_hasher = { version = "=3.1.1", default-features = false }
imageproc = { version = "=0.25.1", default-features = false, features = ["rayon"] }
jsonwebtoken = { version = "9", default-features = false, features = ["use_pem"] }
machine-uid = "0.5"
notify = "8"
num_cpus = "=1.17.0"
ort = { version = "=2.0.0-rc.12", default-features = false, features = ["std", "load-dynamic", "api-24"] }
parking_lot = "0.12"
pdfium-render = "0.8"
rand = "=0.8.8"
rayon = "=1.12.0"
serde = { version = "1", features = ["derive"] }
serde_json = "1"
sha1 = "0.10"
single-instance = "0.3"
sqlx = { version = "0.8", default-features = false, features = ["runtime-tokio", "sqlite", "macros", "derive"] }
tokio = { version = "1", features = ["rt-multi-thread", "macros", "sync", "time", "net", "signal", "fs"] }
toml = "=0.8.23"
tower-http = { version = "0.6", features = ["cors", "fs", "trace"] }
tracing = "0.1"
tracing-appender = "0.2"
tracing-subscriber = { version = "0.3", features = ["env-filter"] }
walkdir = "2"
