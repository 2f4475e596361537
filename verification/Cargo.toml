[package]
name = "gene_core"
version = "0.2.0"
edition = "2021"
publish = false

[dependencies]
anyhow = "1"
chrono = { version = "0.4", default-features = false, features = ["clock", "std", "serde"] }
clap = { version = "4", default-features = false, features = ["std", "derive", "help", "usage", "error-context"] }
directories = "6"
eframe = { version = "0.29", default-features = false, features = ["glow", "x11"] }
egui = { version = "0.29", default-features = false }
egui_plot = { version = "0.29", default-features = false }
eventsource-stream = "0.2"
futures-util = { version = "0.3", default-features = false, features = ["std"] }
libc = "0.2"
reqwest = { version = "0.12", default-features = false, features = ["json", "stream"] }
serde = { version = "1", features = ["derive"] }
serde_json = "1"
shell-words = "1"
tokio = { version = "1", features = ["rt-multi-thread", "macros", "process", "sync", "time", "io-util"] }
toml = "0.8"
tracing = { version = "0.1", default-features = false, features = ["std"] }
tracing-subscriber = { version = "0.3", default-features = false, features = ["fmt", "env-filter", "std"] }
uuid = { version = "1", features = ["v4", "serde"] }
