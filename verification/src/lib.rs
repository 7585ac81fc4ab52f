//! An in-memory model of a directory tree: per-directory aggregate sizes,
//! sorted and filtered reports, and detection of files with identical content.
//!
//! The library never touches the file system. A caller reads the disk and
//! hands over what it found as plain values; everything that is computed from
//! those values is specified and proved here.
//!
//! - [`size`]: byte counts and their text.
//! - [`path`]: paths as sequences of segments.
//! - [`scan`]: the scan of a directory, one look at the disk at a time.
//! - [`file_tree`]: the entries of a tree, the walk of a recorded disk, and
//!   what can be asked of a tree.
//! - [`print_tree`]: the reports of a tree.
//! - [`duplicate`]: files grouped by the signature of their content.

pub mod duplicate;
pub mod file_tree;
pub mod path;
pub mod print_tree;
pub mod scan;
pub mod size;

pub use duplicate::{duplicate_lines, group_by_signature};
pub use file_tree::{disk_fits, EntryNode, FileTree, Probe, TreeError};
pub use path::TreePath;
pub use print_tree::Order;
pub use scan::Scan;
pub use size::Size;
