[package]
name = "tactile_tesla"
version = "0.1.0"
edition = "2021"
publish = false

[dependencies]
heapless = "0.8"
log = "0.4"
esp-hal = { version = "0.21", features = ["esp32"] }
esp-wifi = { version = "0.10", features = ["esp32", "esp-now"] }
esp-println = { version = "0.12", features = ["esp32", "log"] }
esp-alloc = "0.5"
esp-backtrace = { version = "0.14", features = ["esp32", "panic-handler", "exception-handler", "println"] }

[dev-dependencies]
aes = "0.8"
sha2 = "0.10"
