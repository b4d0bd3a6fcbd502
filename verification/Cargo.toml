[package]
name = "blink_tree"
version = "0.1.0"
edition = "2021"
publish = false

[dependencies]
parking_lot = { version = "=0.12.5", features = ["arc_lock", "send_guard"] }

[dev-dependencies]
rayon = "=1.12.0"
