//! xinlan-clip: clipboard history for Linux, as a verified library.
//!
//! The history store and its rules (deduplication, ordering, search,
//! retention), the settings, the GNOME shortcut registration plans, the
//! portal decisions and the command logic live here; windows, the clipboard
//! itself, the database file and D-Bus are the caller's.

pub mod clipboard;
pub mod commands;
pub mod db;
pub mod gnome_hotkey;
pub mod like;
pub mod portal;
pub mod settings;
pub mod text;

use vstd::prelude::*;

verus! {

/// Accelerator offered when registering the GNOME shortcut. `Super+V` would
/// be closer to Windows, but GNOME 46 already owns it.
pub const DEFAULT_HOTKEY: &'static str = "<Control><Alt>v";

} // verus!
