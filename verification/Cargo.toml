[package]
name = "slatedb"
version = "0.1.0"
edition = "2021"
publish = false

[dependencies]
async-trait = "*"
bytes = "*"
foyer = { version = "*", features = ["serde"] }
futures = "*"
log = "*"
mixtrics = "*"
object_store = { version = "*", default-features = false }
parking_lot = "*"
tokio = { version = "*", features = ["macros", "rt", "rt-multi-thread", "sync", "time"] }
tokio-util = { version = "*", features = ["rt"] }
uuid = { version = "*", features = ["v4"] }
