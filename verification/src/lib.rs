//! Core of a note vault: a directory tree of plain-text notes with a custom,
//! persisted display order, links between notes, and link suggestions.
//!
//! Nothing here touches the disk. Whoever does hands over what was found
//! there (the entries of a directory, the text of a note, the order record
//! of a sidecar file) and gets back a listing, a new order record, links,
//! suggestions, or the steps to take on disk.

pub mod error;
pub mod links;
pub mod listing;
pub mod notes;
pub mod order;
pub mod reorder;
pub mod sorting;
pub mod suggest;
pub mod text;
pub mod vault;

pub use error::VaultError;
pub use links::{get_all_links, get_links_from_file, parse_links_from_content, Link, NoteFile};
pub use listing::{list_entries, Entry};
pub use notes::{
    create_folder, create_note, decode_note, delete_entry, read_note, rename_entry, write_note,
    FsStep, PathKind,
};
pub use order::{get_order_file_path, is_order_file, read_file_order, FileOrder, ORDER_FILE_NAME};
pub use reorder::{
    current_order, entry_name, move_entry, parse_position, reorder_entries, Position,
};
pub use suggest::{
    calculate_similarity, folded_similarity, is_markdown, note_stem, suggest_links, walk_action,
    LinkSuggestion, Note, Score, WalkAction, MAX_SUGGESTIONS,
};
pub use vault::{get_vault, set_vault, vault_root, AppState};
