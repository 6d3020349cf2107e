[package]
name = "cjk_unicode_pdf_to_xlsx"
version = "0.1.0"
edition = "2021"
publish = false

[dependencies]
rust_xlsxwriter = "*"
image = { version = "*", default-features = false, features = ["png"] }
zip = "*"
pyo3 = { version = "*", features = ["auto-initialize"] }
