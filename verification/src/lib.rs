//! Identifies a file's true type from its leading bytes ("magic numbers") and
//! compares it with the type that the file's extension declares.
//!
//! The catalog of signatures is a [`MagicNumberTrie`]. It is built once, from
//! a list of entries, and then only read: `search` takes the leading bytes of
//! a file and returns the label of the most specific signature found in them.
//! [`process_file`] turns that into a verdict on the file and [`report`]
//! tallies the verdicts of a run.
//!
//! Nothing here touches the file system. Callers read the catalog and the
//! files and hand over what they found.

pub mod catalog;
pub mod file_manager;
pub mod matching;
pub mod outcome;
pub mod trie;

pub use catalog::{CatalogError, SignatureEntry};
pub use file_manager::{get_file_info, FileManagerError, FileSignature};
pub use outcome::{classify, process_file, report, FileResult, Report};
pub use trie::MagicNumberTrie;
