[package]
name = "cavawall"
version = "0.1.0"
edition = "2021"
publish = false

[dependencies]
serde_json = "=1.0.154"
serde = { version = "=1.0.229", features = ["derive"] }
toml = "=0.8.23"
clap = { version = "=4.6.7", features = ["derive"] }
libc = "=0.2.191"
gl = "=0.14.0"
khronos-egl = { version = "=6.0.0", features = ["static", "no-pkg-config"] }
smithay-client-toolkit = { version = "=0.19.2", default-features = false, features = ["calloop"] }
wayland-client = "=0.31.15"
wayland-egl = "=0.32.11"
# For its features alone: the Wayland libraries are loaded at run time instead
# of linked at build time
wayland-backend = { version = "=0.3.17", features = ["client_system", "dlopen"] }
