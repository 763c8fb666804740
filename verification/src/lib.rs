//! Hashline: a line-anchored patch language for text files.

pub mod apply;
pub mod balance;
pub mod block;
pub mod boundary;
pub mod commits;
pub mod diff_preview;
pub mod effects;
pub mod engines;
pub mod errors;
pub mod format;
pub mod hunks;
pub mod json;
pub mod jsx;
pub mod keeping;
pub mod landing;
pub mod line_reader;
pub mod mcp;
pub mod messages;
pub mod numbers;
pub mod order;
pub mod parser;
pub mod patcher;
pub mod paths;
pub mod patterns;
pub mod prefixes;
pub mod recovery;
pub mod repairs;
pub mod rows;
pub mod sections;
pub mod slides;
pub mod snapshots;
pub mod spelling;
pub mod splitting;
pub mod text;
pub mod tokenizer;
pub mod tools;
pub mod types;
pub mod views;
pub mod written;

pub use apply::apply_edits;
pub use format::{compute_file_hash, format_hashline_header, format_numbered_line};
pub use parser::{parse_patch, ParseResult};
pub use patcher::Patcher;
pub use snapshots::{InMemorySnapshotStore, SnapshotStoreTrait};
pub use types::{
    Anchor, ApplyResult, BlockMode, BlockOp, BlockResolution, BlockResolver, BlockResolverRequest,
    BlockSpan, Cursor, Edit, FileOp, InsertMode, ParsedRange, Patch, PatchSection, SplitOptions,
};
