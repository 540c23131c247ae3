//! Organizes the regular files under a root directory into `YY-MM` folders
//! keyed by the calendar month of each file's last-modified time.
//!
//! The library holds the verified logic of the pipeline: the inventory
//! records, the month keying, the contiguous-run grouping, the per-bucket
//! move planning, and the cleanup decision. The binary around it performs
//! the directory walk, the renames and the deletions.

pub mod cleanup;
pub mod file_info;
pub mod grouping;
pub mod month;
pub mod mover;
pub mod paths;
