[package]
name = "bao_fsm"
version = "0.1.0"
edition = "2021"
publish = false

[dependencies]
anyhow = "1"
bytes = "1"
clap = { version = "4", features = ["derive"] }
fr32 = "*"
futures-lite = "2"
genawaiter = { version = "0.99.1", features = ["futures03"] }
iroh-io = "0.6"
sha2 = "0.10"
smallvec = "1"
