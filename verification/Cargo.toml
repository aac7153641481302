[package]
name = "irc_tui"
version = "0.1.0"
edition = "2021"
publish = false

[dependencies]
pest = "2"
crossterm = { version = "0.28", features = ["event-stream", "bracketed-paste"] }
futures = "0.3"
ratatui = "0.29"
tokio = { version = "1", features = ["rt-multi-thread", "macros", "net", "io-util", "sync"] }
tokio-rustls = { version = "0.26", default-features = false, features = ["ring", "tls12"] }
webpki-roots = "0.26"
