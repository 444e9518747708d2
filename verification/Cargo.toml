[package]
name = "minimonitor"
version = "0.1.0"
edition = "2021"
publish = false

[dependencies]
axum = "*"
bytesize = "*"
clap = { version = "4", features = ["derive"] }
minijinja = "*"
reqwest = { version = "*", default-features = false, features = ["json"] }
serde = { version = "1", features = ["derive"] }
serde_json = "1"
sysinfo = "*"
tokio = { version = "1", features = ["macros", "net", "rt-multi-thread"] }
