[package]
name = "workstyle"
version = "0.1.0"
edition = "2021"
publish = false

[dependencies]
futures-util = "=0.3.34"
log = "=0.4.34"
swayipc = { version = "=2.7.2", features = ["async", "event_stream"] }
tokio = { version = "=1.54.1", features = ["macros", "rt-multi-thread"] }
