[package]
name = "ric3"
version = "0.1.0"
edition = "2021"
publish = false

[dependencies]
aig = "0.3"
logic-form = "=0.3.4"
satif = "=0.2.0"
satif-minisat = "=0.2.7"
serde = { version = "1", features = ["derive"] }
serde_json = "1"
