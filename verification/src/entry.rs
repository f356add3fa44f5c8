//! The scanned directory entry as the planner sees it: a regular file's
//! name and the two attributes the pruning decision reads.

use vstd::prelude::*;

verus! {

/// A regular file found by the directory scan: its name (no directory
/// part), its modification time as an ordered tick count where greater
/// means newer, and its size in bytes.
pub struct FileEntry {
    pub name: String,
    pub modified: u64,
    pub size: u64,
}

} // verus!
