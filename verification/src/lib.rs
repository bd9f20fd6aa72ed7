//! Disk usage statistics for directory trees, with a cache of earlier scans.
//!
//! A scan of a directory gives a tree of nodes, one for each directory, with
//! the total size and the number of the files below it. A later scan starts
//! from the nodes of an earlier one and scans anew only the directories that
//! show a change.
//!
//! The library performs no input or output of its own. A caller records what
//! the filesystem reports in a [`Snapshot`], hands in the time of the scan,
//! and writes what the cache store hands out to be written.
//!
//! - [`snapshot`]: what a scan reads from the filesystem, as plain values
//! - [`survey`]: gathering a snapshot, path by path
//! - [`tree`]: the nodes of a scan
//! - [`listing`]: the files and subdirectories of one directory listing
//! - [`invalidation`]: whether a cached node can still be trusted
//! - [`scanner`]: the scan itself
//! - [`cache`]: the store of the nodes of the scanned roots
//! - [`disk_use`]: scans that go through the store
//! - [`guarantees`], [`history`], [`agreement`], [`completeness`]: what holds
//!   of every scan and of every survey, with proofs; [`sums`] helps them
//! - [`format`], [`logger`], [`location`]: sizes and log lines as text, and
//!   the default place of the cache file

pub mod agreement;
pub mod cache;
pub mod completeness;
pub mod disk_use;
pub mod format;
pub mod guarantees;
pub mod history;
pub mod invalidation;
pub mod listing;
pub mod location;
pub mod logger;
pub mod scanner;
pub mod snapshot;
pub mod sums;
pub mod survey;
pub mod tree;

pub use cache::{Cache, CacheManager, RootEntry};
pub use disk_use::DiskUse;
pub use format::format_size;
pub use location::{get_default_cache_path, CacheLocation};
pub use scanner::{count_files, scan_directory};
pub use snapshot::{DirEntry, EntryKind, EntryMeta, IoFailure, PathProbe, Snapshot, Timestamp};
pub use survey::Survey;
pub use tree::{DirStat, DirTree};
