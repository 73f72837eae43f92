//! Process-tree reconstruction, introspection and rendering.
//!
//! A flat snapshot of process records is turned into ancestry trees, the
//! trees are enriched with per-process details, and the result is rendered
//! as indented text lines.

pub mod builder;
pub mod config;
pub mod extract;
pub mod laws;
pub mod order;
pub mod printer;
pub mod process;
pub mod search;
pub mod text;

pub use builder::{add_parent, find_by_pid, list_all};
pub use config::PrintConfig;
pub use extract::{ExtractError, Extraction, Reply, Request, Stage, TextBuffer};
pub use printer::print;
pub use process::{PidNode, ProcessInfo, ProcessRecord};
pub use search::find_child;
pub use text::{decode_wide, str_from_u8, str_from_u8_checked};
