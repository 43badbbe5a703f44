[package]
name = "warc_curator"
version = "0.1.0"
edition = "2021"
publish = false

[dependencies]
anyhow = "=1.0.104"
arrow = { version = "=60.0.0", default-features = false }
encoding_rs = "=0.8.42"
fasttext = "=0.8.0"
futures-util = "=0.3.34"
htmd = "=0.5.6"
lindera = "=6.2.0"
once_cell = "=1.21.4"
parquet = { version = "=60.0.0", default-features = false, features = ["arrow", "async", "zstd"] }
regex = "=1.13.1"
reqwest = { version = "=0.13.5", default-features = false, features = ["stream", "rustls"] }
tokio = { version = "=1.54.1", features = ["full"] }
tokio-stream = "=0.1.19"
tokio-util = { version = "=0.7.20", features = ["io"] }
unicode-normalization = "=0.1.26"
