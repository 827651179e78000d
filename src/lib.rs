//! Lazy, error-tolerant text search over a file tree: a line segmenter that
//! understands LF, CR, CRLF and NUL boundaries, a depth-first walker driven one
//! event at a time, and the per-file search engine that joins the two.

pub mod readline;
pub mod search;
pub mod walk;

pub use readline::{LineDelimiter, LineStep, Lines};
pub use search::{FileScan, FileSearch, Pattern};
pub use walk::{
    walk_dir, walk_path, Error as WalkError, NodeKind, WalkAction, WalkDir, WalkEvent, WalkPath,
};
