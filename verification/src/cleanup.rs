//! The cleanup sweep's decision logic: which immediate subdirectories of
//! the root are to be removed once every mover unit has finished. A
//! subdirectory goes when it holds nothing but the reserved filename —
//! in particular when it is empty. The sweep looks one level deep only
//! and runs once, with no fixed-point iteration.

use vstd::prelude::*;
use crate::paths::{is_thumbs_db, reserved_name};

verus! {

/// The listing of one immediate subdirectory of the root: its base name
/// and the base names of the entries inside it.
pub struct SubdirListing {
    pub name: String,
    pub entries: Vec<String>,
}

/// Whether a directory listing holds at least one entry that is not the
/// reserved filename — the reason to keep the directory.
pub open spec fn has_visible_spec(entries: Seq<String>) -> bool {
    exists|i: int| 0 <= i < entries.len() && (#[trigger] entries[i])@ != reserved_name()
}

/// Decides whether a directory's entries contain anything besides the
/// reserved filename.
pub fn has_visible_files(entries: &Vec<String>) -> (r: bool)
    ensures
        r == has_visible_spec(entries@),
{
    let mut i: usize = 0;
    while i < entries.len()
        invariant
            i <= entries.len(),
            forall|j: int| 0 <= j < i ==> (#[trigger] entries@[j])@ == reserved_name(),
        decreases entries.len() - i,
    {
        if !is_thumbs_db(entries[i].as_str()) {
            return true;
        }
        i = i + 1;
    }
    false
}

/// The names of the subdirectories the sweep removes, in listing order:
/// those whose entries are all the reserved filename, the empty ones
/// included.
pub open spec fn dirs_to_delete_spec(subdirs: Seq<SubdirListing>) -> Seq<Seq<char>>
    decreases subdirs.len(),
{
    if subdirs.len() == 0 {
        Seq::empty()
    } else {
        let rest = dirs_to_delete_spec(subdirs.drop_last());
        if has_visible_spec(subdirs.last().entries@) {
            rest
        } else {
            rest.push(subdirs.last().name@)
        }
    }
}

/// Selects the subdirectories to remove: those with no entry besides the
/// reserved filename.
pub fn dirs_to_delete(subdirs: &Vec<SubdirListing>) -> (r: Vec<String>)
    ensures
        r@.map(|i: int, s: String| s@) == dirs_to_delete_spec(subdirs@),
{
    let mut out: Vec<String> = Vec::new();
    let mut i: usize = 0;
    while i < subdirs.len()
        invariant
            i <= subdirs.len(),
            out@.map(|k: int, s: String| s@) == dirs_to_delete_spec(subdirs@.subrange(0, i as int)),
        decreases subdirs.len() - i,
    {
        proof {
            assert(subdirs@.subrange(0, i + 1).drop_last() =~= subdirs@.subrange(0, i as int));
            assert(subdirs@.subrange(0, i + 1).last() == subdirs@[i as int]);
        }
        let ghost out0 = out@;
        if !has_visible_files(&subdirs[i].entries) {
            let name = subdirs[i].name.clone();
            let ghost ng = name;
            out.push(name);
            proof {
                assert(out@.map(|k: int, s: String| s@) =~= out0.map(|k: int, s: String| s@).push(
                    ng@,
                ));
            }
        }
        i = i + 1;
    }
    proof {
        assert(subdirs@.subrange(0, i as int) =~= subdirs@);
    }
    out
}

/// A subdirectory whose entries are all the reserved filename — the sole
/// copy of that file included — is removed by the sweep.
pub proof fn lemma_reserved_only_dir_deleted(subdirs: Seq<SubdirListing>, i: int)
    requires
        0 <= i < subdirs.len(),
        forall|j: int|
            0 <= j < subdirs[i].entries@.len() ==> (#[trigger] subdirs[i].entries@[j])@
                == reserved_name(),
    ensures
        dirs_to_delete_spec(subdirs).contains(subdirs[i].name@),
    decreases subdirs.len(),
{
    let rest = dirs_to_delete_spec(subdirs.drop_last());
    if i == subdirs.len() - 1 {
        assert(subdirs.last() == subdirs[i]);
        assert(!has_visible_spec(subdirs[i].entries@));
        let s = dirs_to_delete_spec(subdirs);
        assert(s == rest.push(subdirs[i].name@));
        assert(s[s.len() - 1] == subdirs[i].name@);
    } else {
        assert(subdirs.drop_last()[i] == subdirs[i]);
        lemma_reserved_only_dir_deleted(subdirs.drop_last(), i);
        let k = choose|k: int| 0 <= k < rest.len() && rest[k] == subdirs[i].name@;
        let s = dirs_to_delete_spec(subdirs);
        if has_visible_spec(subdirs.last().entries@) {
            assert(s[k] == subdirs[i].name@);
        } else {
            assert(s == rest.push(subdirs.last().name@));
            assert(s[k] == subdirs[i].name@);
        }
    }
}

} // verus!
