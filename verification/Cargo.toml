[package]
name = "vuln_roundup"
version = "0.1.0"
edition = "2021"
publish = false

[dependencies]
anyhow = "=1.0.104"
colored = "=3.1.1"
dotenv = "=0.15.0"
env_logger = "=0.11.11"
git2 = { version = "=0.21.0", default-features = false }
log = "=0.4.34"
reqwest = { version = "=0.13.5", default-features = false, features = ["blocking", "json", "query"] }
serde = { version = "=1.0.229", features = ["derive"] }
serde_json = "=1.0.151"
structopt = "=0.3.26"
tempfile = "=3.27.0"
thiserror = "=2.0.21"
