[package]
name = "quantized_arc"
version = "0.1.0"
edition = "2021"
publish = false

[dependencies]
kitsune_p2p_dht_arc = { version = "*", default-features = false }
serde = { version = "1", features = ["derive"] }
derive_more = { version = "*", features = ["deref", "deref_mut", "index", "index_mut", "into_iterator"] }
