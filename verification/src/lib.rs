//! Verified core of an image-to-JPEG converter: configuration defaults,
//! path and size helpers, file selection state, and conversion planning.

pub mod config;
pub mod converter;
pub mod ffmpeg;
pub mod imaging;
pub mod text;
pub mod tui;
pub mod utils;
pub mod paths;
pub mod walk;
