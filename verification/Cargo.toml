[package]
name = "jev_datafusion"
version = "0.1.0"
edition = "2021"
publish = false

[dependencies]
arrow = { version = "=58.4.1", default-features = false, features = ["json"] }
arrow-schema = { version = "=58.4.1", default-features = false, features = ["canonical_extension_types"] }
async-trait = "0.1"
datafusion = { version = "=53.1.0", default-features = false, features = ["sql", "crypto_expressions"] }
datafusion-functions-json = "0.53"
fastrand = "=2.5.0"
futures = "0.3"
httpdate = "=1.0.3"
parquet = { version = "=58.4.1", default-features = false, features = ["arrow", "variant_experimental"] }
reqwest = { version = "=0.12.28", default-features = false, features = ["stream", "rustls-tls"] }
serde = { version = "1", features = ["derive"] }
serde_json = { version = "=1.0.154", features = ["arbitrary_precision", "raw_value"] }
serde_path_to_error = "0.1"
tokio = { version = "1", features = ["rt", "macros", "time", "sync"] }
