[package]
name = "timesheet"
version = "0.1.0"
edition = "2021"
publish = false

[dependencies]
rust_decimal = { version = "1", features = ["serde-with-float"] }
chrono = { version = "0.4", features = ["serde"] }
serde = { version = "1", features = ["derive"] }
axum = "0.8"
axum-extra = { version = "0.10", default-features = false, features = ["cookie"] }
sqlx = { version = "0.8", default-features = false, features = ["runtime-tokio", "postgres", "chrono", "rust_decimal"] }
tokio = { version = "1", features = ["macros", "rt-multi-thread", "net"] }
dotenvy = "0.15"
time = "0.3"
rust_xlsxwriter = "*"
