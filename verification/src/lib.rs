//! Keeps the clipboards of several Wayland and X11 displays in step.

pub mod clipboard;
pub mod data;
pub mod decode;
pub mod discovery;
pub mod duplicates;
pub mod error;
pub mod fetch;
pub mod image;
pub mod laws;
pub mod mime;
pub mod probe;
pub mod selection;
pub mod setup;
pub mod sharing;
pub mod text;
pub mod watch;
pub mod wayland;
pub mod words;
pub mod x11;
