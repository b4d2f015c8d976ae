//! Planning core of a bulk remove / copy / move tool.
//!
//! The filesystem itself is touched by the caller. This library decides, from
//! an enumerated tree, which per-entry actions to run, how source paths map to
//! destination paths, and when a move falls back to copy-then-remove. A spec
//! model of the filesystem states what running those actions achieves.
pub mod path;
pub mod plan;
pub mod model;
pub mod progress;

pub use path::{join, relative, SEP};
pub use plan::{copy, move_file, remove, Action, Entry, EntryKind};
pub use progress::{tally, Tally};
