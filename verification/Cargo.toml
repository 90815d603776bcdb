[package]
name = "army-ghosts"
version = "0.1.0"
edition = "2021"
publish = false

[dependencies]
uuid = "1"
bevy = { version = "0.18", default-features = false, features = ["bevy_render", "bevy_sprite", "bevy_sprite_render", "bevy_text", "bevy_ui", "bevy_ui_render", "bevy_window", "bevy_state", "bevy_log", "bevy_core_pipeline", "png", "default_font"] }
bevy_ggrs = "0.20"
js-sys = "0.3"
wasm-bindgen = "0.2"
web-sys = { version = "0.3", features = ["Window", "Document", "Element", "HtmlElement", "Location", "Storage", "Navigator", "Clipboard"] }
