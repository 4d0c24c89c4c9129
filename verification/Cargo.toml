[package]
name = "lua_script_manager"
version = "0.1.0"
edition = "2021"
publish = false

[dependencies]
ahash = "0.8"
caches = "0.3.0"
mlua = { version = "0.11.6", features = ["luau", "vendored"] }
serde = { version = "1", features = ["derive"] }
toml = "1"
walkdir = "2"

[dev-dependencies]
tempfile = "3"
