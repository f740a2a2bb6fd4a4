[package]
name = "indigo"
version = "0.2.0"
edition = "2021"
publish = false

[dependencies]
sha2 = "0.10"
png = "0.17"
serde = { version = "1", features = ["derive"] }
serde_json = "1"
ureq = { version = "2", features = ["json"] }
sysinfo = "0.33"
nvml-wrapper = "0.10"
ksni = "0.2"
libc = "0.2"
glib = "0.18"
gdk = "0.18"
gtk = "0.18"
cairo-rs = "0.18"
pango = "0.18"
pangocairo = "0.18"
