//! The verified core of a Windows application launcher: what is indexed, how an
//! entry is launched, how icons, settings and usage records are kept.

pub mod commands;
pub mod config;
pub mod entry;
pub mod icons;
pub mod index;
pub mod launch;
pub mod portable;
pub mod shortcuts;
pub mod store;
pub mod system;
pub mod text;
pub mod textmap;
pub mod tray;
pub mod usage;
pub mod wide;
pub mod winpath;

pub use entry::AppInfo;
