[package]
name = "scream"
version = "0.1.0"
edition = "2021"
publish = false

[dependencies]
clap = { version = "4.6", features = ["derive", "env"] }
glib = "0.20"
gstreamer = "0.23"
gstreamer-app = "0.23"
gstreamer-rtsp-server = "0.23"
gstreamer-sdp = "0.23"
memmap2 = "0.9"
signal-hook = "0.4"
socket2 = { version = "0.6", features = ["all"] }
tempfile = "3"
wayland-client = "0.31"
wayland-protocols = { version = "0.32", features = ["client", "staging"] }
