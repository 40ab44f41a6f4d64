//! Snapshots of directory trees.
//!
//! A snapshot is an ordered tree of the entries below a root directory, with
//! the entries left out that a path filter ignores and the directories in
//! which version control keeps its data. Among siblings directories come
//! before files, and each of the two groups is in the order of its labels.
//!
//! The library reads no directory itself. [`walk::TreeWalk`] names the
//! directory whose listing it needs next and takes the listing when it is
//! there, so that whoever drives it decides where and when the reading is
//! done. [`snapshot::build_tree`] builds the same tree at once from a
//! listing that is already in memory, and [`replay`] shows that the two
//! agree. [`scheduler::SnapshotScheduler`] keeps the books of the requests
//! whose builds are under way, so that each is delivered once.

pub mod entry;
pub mod filter;
pub mod listing;
pub mod node;
pub mod order;
pub mod replay;
pub mod scheduler;
pub mod snapshot;
pub mod sort;
pub mod trail;
pub mod walk;
