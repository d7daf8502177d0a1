[package]
name = "led_remote"
version = "0.1.0"
edition = "2021"
publish = false

[dependencies]
clap = { version = "4", features = ["derive"] }
hap = "=0.1.0-pre.6"
num-complex = "0.4"
serde_json = "=1.0.154"
soapysdr = "0.4"
tiny_http = "0.12"
tokio = { version = "0.2", features = ["rt-threaded", "blocking"] }
