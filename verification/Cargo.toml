[package]
name = "menu_maker"
version = "0.1.0"
edition = "2021"
publish = false

[dependencies]
axum = "*"
chrono = "*"
pdf-extract = "*"
rusqlite = { version = "*", features = ["bundled"] }
serde = { version = "*", features = ["derive"] }
serde_json = "*"
thirtyfour = "*"
tokio = { version = "*", features = ["macros", "rt-multi-thread", "net"] }
