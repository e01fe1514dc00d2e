//! The logic of `agent-spy`, a window that shows every image created or modified in a directory.

pub mod args;
pub mod clock;
pub mod images;
pub mod keys;
pub mod layout;
pub mod loader;
pub mod paint;
pub mod path;
pub mod pixels;
pub mod scale;
pub mod scan;
pub mod screen;
pub mod text;
pub mod ui;
