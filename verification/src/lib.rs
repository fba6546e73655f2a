//! The logic of a keyboard-driven Wayland application launcher: reading desktop
//! entries, searching them, turning an Exec line into a command, and the run dialog's
//! command history and tab completion.
pub mod completion;
pub mod config;
pub mod desktop_entry;
pub mod history;
pub mod launcher;
pub mod scanner;
pub mod text;
