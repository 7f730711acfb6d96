[package]
name = "chunked_downloader"
version = "0.1.0"
edition = "2021"
publish = false

[dependencies]
clap = { version = "=4.6.7", features = ["derive"] }
dotenvy = "=0.15.7"
expanduser = "=1.2.2"
futures = "=0.3.34"
itertools = "=0.15.0"
reqwest = "=0.11.27"
rs_openai = "=0.4.1"
tokio = { version = "=1.54.1", features = ["full"] }
youtube_dl = { version = "=0.9.0", features = ["tokio"] }
