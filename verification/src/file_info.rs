//! The inventory record: one entry per regular file found under the root.

use vstd::prelude::*;

verus! {

/// One scanned file: its path and the last-modified time captured at scan
/// time, as whole seconds since the Unix epoch. The record is immutable;
/// even if the file's timestamp changes later, the captured value governs
/// its bucket assignment.
pub struct FileInfo {
    pub path: String,
    pub modified_secs: i64,
}

impl FileInfo {
    pub fn new(path: String, modified_secs: i64) -> (r: Self)
        ensures
            r.path@ == path@,
            r.modified_secs == modified_secs,
    {
        Self { path, modified_secs }
    }
}

} // verus!
