[package]
name = "ant_colony"
version = "0.1.0"
edition = "2021"
publish = false

[dependencies]
rand = "*"
serde = { version = "1", features = ["derive"] }
serde_json = "1"
ts-rs = "*"
actix-web = "4"
actix-cors = "*"
actix-ws = "*"
futures-util = "*"
tokio = { version = "1", features = ["macros", "time", "rt"] }
