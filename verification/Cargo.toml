[package]
name = "rowtree"
version = "0.1.0"
edition = "2021"
publish = false

[dependencies]
postgres = { version = "=0.19.14", features = ["with-uuid-1", "with-chrono-0_4"] }
r2d2 = "=0.8.10"
r2d2_postgres = "=0.18.2"
uuid = "=1.27.0"
chrono = "=0.4.45"
serde_json = "=1.0.151"
