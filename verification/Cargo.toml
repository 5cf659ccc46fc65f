[package]
name = "two-khz"
version = "0.1.0"
edition = "2021"
publish = false

[dependencies]
anyhow = "=1.0.104"
bytemuck = { version = "=1.25.2", features = ["extern_crate_alloc"] }
diesel = { version = "=2.3.14", default-features = false, features = ["sqlite"] }
dioxus = { version = "=0.6.3", default-features = false, features = ["macro", "html", "signals", "hooks", "document"] }
futures-util = "=0.3.34"
libc = "=0.2.191"
md-5 = "=0.10.6"
memmap2 = "=0.9.12"
ort = { version = "=2.0.0-rc.10", default-features = false, features = ["std", "load-dynamic"] }
reqwest = { version = "=0.12.28", default-features = false, features = ["json", "stream"] }
serde = { version = "=1.0.229", features = ["derive"] }
serde_json = "=1.0.154"
tokenizers = { version = "=0.21.4", default-features = false, features = ["onig"] }
tokio = { version = "=1.54.1", features = ["rt", "macros", "time", "process", "io-util", "sync"] }
