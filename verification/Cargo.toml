[package]
name = "junkyard"
version = "0.1.0"
edition = "2021"
publish = false

[dependencies]
objc2-foundation = { version = "=0.3.2", features = ["NSFileManager", "NSURL", "NSError", "NSString"] }
rustix = { version = "=1.1.6", features = ["fs", "process"] }
thiserror = "=2.0.21"
time = { version = "=0.3.55", features = ["local-offset"] }
windows = { version = "=0.62.2", features = ["Win32_Foundation", "Win32_System_Com", "Win32_UI_Shell", "Win32_UI_Shell_Common", "Win32_UI_Shell_PropertiesSystem"] }
windows-core = "=0.62.2"
