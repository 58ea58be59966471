[package]
name = "belka"
version = "0.2.0"
edition = "2021"
publish = false

[dependencies]
anyhow = "1"
async-trait = "0.1"
bcrypt = "0.16"
directories = "5"
egui = { version = "0.30", default-features = false, features = ["default_fonts"] }
image = { version = "0.25", default-features = false, features = ["jpeg", "png"] }
libc = "0.2"
local-ip-address = "0.6"
notify = "6"
quick-xml = "0.37"
russh = "0.45"
semver = "1"
serde = { version = "1", features = ["derive"] }
serde_json = "1"
tokio = { version = "1", features = ["full"] }
tracing = "0.1"
tracing-appender = "0.2"
tracing-subscriber = { version = "0.3", features = ["env-filter"] }
