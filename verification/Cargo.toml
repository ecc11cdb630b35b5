[package]
name = "soundforge"
version = "0.1.0"
edition = "2021"
publish = false

[dependencies]
bytemuck = "1"
cpal = "*"
hound = "3"
libc = "0.2"
log = "0.4"
memmap2 = "0.9"
rtrb = "0.3"
serde = { version = "1", features = ["derive"] }
symphonia = { version = "0.5", features = ["all"] }

[dev-dependencies]
serde_json = "1"
