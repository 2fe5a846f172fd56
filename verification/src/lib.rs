//! Token usage accounting for DeepSeek Harness session logs.
//!
//! A session directory holds one or more generations of a session's log. The library says which
//! of the files that were found are read ([`discover_session_files`]), what settled request
//! attempts a file records ([`read_session_file`]), which usage entries they become
//! ([`session_entries`]), and how the entries of all files make up one list ([`load_entries`]).
//! It reads nothing itself: files and times come in as values.

pub mod attempts;
pub mod discovery;
pub mod entry;
pub mod fields;
pub mod json;
pub mod loader;
pub mod order;
pub mod paths;
pub mod roots;
pub mod session;
pub mod text;
pub mod usage;

pub use discovery::{discover_session_files, has_data};
pub use entry::{session_entries, to_loaded_entry, CostMode, LoadedEntry};
pub use loader::load_entries;
pub use paths::{session_file_version, FilePath, PathPart, SessionFileVersion};
pub use session::{read_session_file, ReadError, SessionLog};
