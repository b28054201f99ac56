[package]
name = "biome_js_semantic"
version = "0.1.0"
edition = "2021"
publish = false

# The biome crates are released together and only work together when they
# come from one release, so every one of them that ends up in the build is
# held to that release here, also those that this crate does not name itself.
[dependencies]
biome_console = "=0.5.7"
biome_diagnostics = "=0.5.7"
biome_js_syntax = "=0.5.7"
biome_rowan = "=0.5.7"
biome_text_edit = "=0.5.7"
biome_text_size = "=0.5.7"
rustc-hash = "=2.1.3"
