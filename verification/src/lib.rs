//! The verified core of a keyboard-driven notes app: the naming scheme of its
//! notes folder and trash, the decisions taken on directory listings, the
//! preferences, and the logic of its windows.

pub mod config;
pub mod names;
pub mod paths;
pub mod store;
pub mod timing;
pub mod window;

pub use config::{default_toggle_app, Config, DetachedWindow, Shortcuts};
pub use names::{note_file_name, trash_file_name, validate_id, NoteError};
pub use paths::with_dev_suffix;
pub use store::{trash_count, DirEntry, Note};
pub use window::{
    corner_fits, detached_ids, is_notes_window, prune_detached, saved_geometry, window_note_id,
};
