[package]
name = "goz"
version = "0.1.0"
edition = "2021"
publish = false

[dependencies]
anyhow = "1"
hashbrown = "0.15"
jiff = "0.2"
mimalloc = "0.1"
parking_lot = "0.12"
rustc-hash = "2"
serde = { version = "1", features = ["derive"] }
serde_json = "1"
smallvec = "1"
tracing = "0.1"
unicode-normalization = "0.1"
zerocopy = "0.8"

[dependencies.windows-sys]
version = "0.59"
features = ["Win32_Foundation", "Win32_Security", "Win32_Security_Authorization", "Win32_Storage_FileSystem", "Win32_System_IO", "Win32_System_Ioctl", "Win32_System_Memory", "Win32_System_Pipes", "Win32_System_ProcessStatus", "Win32_System_Services", "Win32_System_SystemServices", "Win32_System_Threading"]
