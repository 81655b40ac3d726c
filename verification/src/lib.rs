//! Verified core of the `launch` app-launch toolkit.
pub mod text;
pub mod timeline;
pub mod ffmpeg;
pub mod config;
pub mod device;
pub mod tts;
pub mod title;
pub mod capture;
pub mod bundle;
pub mod mockup;
