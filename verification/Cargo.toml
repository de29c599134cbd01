[package]
name = "tri_arbitrage"
version = "0.1.0"
edition = "2021"
publish = false

[dependencies]
petgraph = "0.6"
bigdecimal = "0.4"
dashmap = "5"
crossbeam = "0.8"
rand = "0.8"
chrono = "0.4"
tokio = { version = "1", features = ["full"] }
warp = "0.3"
ezsockets = "0.6"
async-trait = "0.1"
url = "2"
bytes = "1"
tracing = "0.1"
dotenv = "0.15"
once_cell = "1"
lazy_static = "1"
