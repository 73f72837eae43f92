[package]
name = "proctree"
version = "0.1.0"
edition = "2021"
publish = false

[dependencies]
serde = { version = "1", features = ["derive"] }
smbios-lib = "0.9"
windows = { version = "0.52", features = ["Wdk_System_Threading", "Win32_Foundation", "Win32_System_Console", "Win32_System_Diagnostics_Debug", "Win32_System_Diagnostics_ToolHelp", "Win32_System_Kernel", "Win32_System_Threading", "Win32_UI_WindowsAndMessaging"] }
winreg = "0.52"
wmi = "0.13"
