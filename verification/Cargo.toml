[package]
name = "wimbd"
version = "0.1.0"
edition = "2021"
publish = false

[dependencies]
ahash = "=0.8.12"
anyhow = "=1.0.104"
async-compression = { version = "=0.4.51", features = ["tokio", "gzip", "zstd"] }
aws-config = "=1.11.0"
aws-sdk-s3 = "=1.152.0"
console = "=0.15.11"
flate2 = "=1.1.10"
glob = "=0.3.4"
humantime = "=2.4.0"
log = "=0.4.34"
num_cpus = "=1.17.0"
parse-size = "=1.1.0"
rand = "=0.8.8"
regex = "=1.13.1"
serde = { version = "=1.0.229", features = ["derive"] }
serde_json = "=1.0.154"
simple_logger = "=4.3.3"
structopt = "=0.3.26"
thousands = "=0.2.0"
threadpool = "=1.8.1"
tokio = { version = "=1.54.1", features = ["rt", "io-util", "time"] }
unicode-segmentation = "=1.13.3"
zstd = "=0.13.3"
