//! indigo: the verified core of a small system-monitor widget.

pub mod text;
pub mod paths;
pub mod updater;
pub mod procinfo;
pub mod monitor;
pub mod fans;
pub mod settings;
pub mod ticker;
pub mod autostart;
pub mod state;
pub mod tray;
pub mod menu;
pub mod format;
