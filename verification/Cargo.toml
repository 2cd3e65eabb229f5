[package]
name = "image-filter"
version = "0.1.0"
edition = "2021"
publish = false

[dependencies]
md-5 = "0.10"
image = { version = "0.25", default-features = false, features = ["jpeg", "png", "gif", "bmp", "tiff", "webp", "rayon"] }
rawler = "*"
kamadak-exif = "*"
serde = { version = "1", features = ["derive"] }
tokio = { version = "1", features = ["full"] }
zune-jpeg = "0.4"
memmap2 = "0.9"
rayon = "1"
imgfprint = "*"
inspect_path = "*"
windows = { version = "*", features = ["Win32_Foundation", "Win32_Storage_FileSystem", "Win32_System_IO", "Win32_Security", "Win32_System_Com", "Win32_UI_Shell", "Win32_Graphics_Gdi", "Win32_Graphics_Imaging"] }
sqlx = { version = "0.8", features = ["sqlite", "runtime-tokio"] }
thiserror = "*"
