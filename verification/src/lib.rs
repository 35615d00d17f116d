//! Disk usage analysis: turns a pre-order walk of a directory tree into a
//! tree of entries with aggregated sizes, and decides how that tree is shown.

pub mod display;
pub mod laws;
pub mod options;
pub mod size_text;
pub mod tree;
pub mod units;
pub mod walk;

pub use display::{bar_reference_of, tree_lines, tree_prefix, visible_entries, TreeLine};
pub use options::ScanOptions;
pub use size_text::{
    normalize_size_text, parse_size_text, remove_spaces, size_unit_suffix, trim_text, SizeFormatError,
    SizeText,
};
pub use tree::{is_valid_walk, scan_unreadable_root, scan_walk, scan_walk_checked, Entry, ScanResult};
pub use units::{size_format, SizeFormat, SizeUnit};
pub use walk::WalkItem;
