[package]
name = "conf_sync"
version = "0.1.0"
edition = "2021"
publish = false

[dependencies]
seahash = "=4.1.0"
whoami = "=1.6.1"
keyring = "=2.3.3"
google-drive3 = "=5.0.5"
time = "0.3"
tokio = { version = "1", features = ["full"] }
futures-locks = "0.7"
async-trait = "0.1"
anyhow = "1"
serde = { version = "1", features = ["derive"] }
config = "0.13"
directories = "5"
toml = "0.8"
webbrowser = "0.8"
