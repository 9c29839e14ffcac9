[package]
name = "llm_service"
version = "0.1.0"
edition = "2021"
publish = false

[dependencies]
colored = "2"
digit-layout = "*"
log = "0.4"
memmap2 = "0.9"
tokeneer = "*"
tokio = { version = "1", features = ["rt", "sync"] }

[dev-dependencies]
half = "2"
