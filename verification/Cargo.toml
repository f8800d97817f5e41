[package]
name = "infernal_pf2e_parser_simple"
version = "0.1.0"
edition = "2021"
publish = false

[dependencies]
base64 = "=0.22.1"
uuid = { version = "=1.29.0", features = ["v4"] }
serde_json = "=1.0.154"
r2d2_postgres = "=0.18.2"
