//! Library behind a small launcher that binds global hotkeys to shell
//! commands: the configuration model, a YAML reader and writer for it,
//! the lookup of the configuration file, the preparation of hotkey
//! registrations and tray-menu labels, and the event-dispatch state
//! machine that decides which configured action runs.

pub mod config;
pub mod dispatch;
pub mod hotkeys;
pub mod paths;
pub mod text;
pub mod yaml;
