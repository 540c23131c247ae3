//! The mover's planning logic: for one bucket, the exact sequence of
//! renames to perform. Each bucket's plan is independent of every other
//! bucket's, so the planned units of work can run concurrently; the
//! binary executes one unit per bucket and joins them all before the
//! cleanup sweep.

use vstd::prelude::*;
use crate::file_info::FileInfo;
use crate::grouping::Bucket;
use crate::month::{MonthKey, key_wf};
use crate::paths::{base_name, base_name_spec, folder_name, is_thumbs_db, join_path, month_folder,
    reserved_name};

verus! {

/// One planned relocation: rename `from` to `to`. The rename is atomic
/// per file; a target that already exists is replaced silently.
pub struct MoveOp {
    pub from: String,
    pub to: String,
}

/// The views of a sequence of move operations.
pub open spec fn op_views(ops: Seq<MoveOp>) -> Seq<(Seq<char>, Seq<char>)> {
    ops.map(|i: int, op: MoveOp| (op.from@, op.to@))
}

/// Where a file named `name` of a bucket keyed `key` goes: into the
/// key's `YY-MM` folder directly under the root.
pub open spec fn move_target(root: Seq<char>, key: MonthKey, name: Seq<char>) -> Seq<char> {
    root + seq!['/'] + month_folder(key.year as int, key.month as int) + seq!['/'] + name
}

/// The planned renames of a bucket, in record order: one per record,
/// except records whose base name is the reserved filename and records
/// with no base name at all, which are skipped.
pub open spec fn spec_moves(root: Seq<char>, key: MonthKey, files: Seq<FileInfo>) -> Seq<
    (Seq<char>, Seq<char>),
>
    decreases files.len(),
{
    if files.len() == 0 {
        Seq::empty()
    } else {
        let rest = spec_moves(root, key, files.drop_last());
        let f = files.last();
        match base_name_spec(f.path@) {
            Some(name) => if name == reserved_name() {
                rest
            } else {
                rest.push((f.path@, move_target(root, key, name)))
            },
            None => rest,
        }
    }
}

proof fn lemma_op_views_push(ops: Seq<MoveOp>, op: MoveOp)
    ensures
        op_views(ops.push(op)) =~= op_views(ops).push((op.from@, op.to@)),
{
}

/// Plans the unit of work of one bucket: the renames that relocate its
/// records into the key's destination folder, skipping the reserved
/// filename and records without a base name.
pub fn moves_for_bucket(root: &str, b: &Bucket) -> (ops: Vec<MoveOp>)
    requires
        key_wf(b.key),
    ensures
        op_views(ops@) == spec_moves(root@, b.key, b.files@),
{
    let folder = folder_name(b.key);
    let dest = join_path(root, folder.as_str());
    let mut ops: Vec<MoveOp> = Vec::new();
    let mut idx: usize = 0;
    while idx < b.files.len()
        invariant
            idx <= b.files.len(),
            key_wf(b.key),
            dest@ == root@ + seq!['/'] + month_folder(b.key.year as int, b.key.month as int),
            op_views(ops@) == spec_moves(root@, b.key, b.files@.subrange(0, idx as int)),
        decreases b.files.len() - idx,
    {
        let ghost pre = b.files@.subrange(0, idx as int);
        proof {
            assert(b.files@.subrange(0, idx + 1).drop_last() =~= pre);
            assert(b.files@.subrange(0, idx + 1).last() == b.files@[idx as int]);
        }
        let f = &b.files[idx];
        match base_name(f.path.as_str()) {
            Some(name) => {
                if !is_thumbs_db(name.as_str()) {
                    let to = join_path(dest.as_str(), name.as_str());
                    let ghost ops0 = ops@;
                    let op = MoveOp { from: f.path.clone(), to };
                    let ghost opg = op;
                    ops.push(op);
                    proof {
                        lemma_op_views_push(ops0, opg);
                        assert(opg.to@ =~= move_target(root@, b.key, name@));
                        assert(op_views(ops@) =~= spec_moves(
                            root@,
                            b.key,
                            b.files@.subrange(0, idx + 1),
                        ));
                    }
                }
            },
            None => {},
        }
        idx = idx + 1;
    }
    proof {
        assert(b.files@.subrange(0, idx as int) =~= b.files@);
    }
    ops
}

/// The reserved filename is never relocated: no planned rename has it as
/// the base name of its source, and every planned rename sends its source
/// to that name's slot in the key's destination folder.
pub proof fn lemma_reserved_never_moved(root: Seq<char>, key: MonthKey, files: Seq<FileInfo>)
    ensures
        forall|i: int|
            0 <= i < spec_moves(root, key, files).len() ==> {
                let op = #[trigger] spec_moves(root, key, files)[i];
                &&& base_name_spec(op.0) matches Some(n)
                &&& base_name_spec(op.0)->Some_0 != reserved_name()
                &&& op.1 == move_target(root, key, base_name_spec(op.0)->Some_0)
            },
    decreases files.len(),
{
    if files.len() == 0 {
    } else {
        lemma_reserved_never_moved(root, key, files.drop_last());
    }
}

/// The documented no-op path of a rerun: a bucket whose records already
/// sit at their own targets is planned as self-renames only, so running
/// the mover again over an already-organized tree relocates nothing.
pub proof fn lemma_replan_is_noop(root: Seq<char>, key: MonthKey, files: Seq<FileInfo>)
    requires
        forall|i: int|
            0 <= i < files.len() ==> {
                let p = (#[trigger] files[i]).path@;
                base_name_spec(p) matches Some(n) ==> p == move_target(root, key, n)
            },
    ensures
        forall|i: int|
            0 <= i < spec_moves(root, key, files).len() ==> (#[trigger] spec_moves(
                root,
                key,
                files,
            )[i]).0 == spec_moves(root, key, files)[i].1,
    decreases files.len(),
{
    if files.len() == 0 {
    } else {
        let pre = files.drop_last();
        assert forall|i: int| 0 <= i < pre.len() implies {
            let p = (#[trigger] pre[i]).path@;
            base_name_spec(p) matches Some(n) ==> p == move_target(root, key, n)
        } by {
            assert(pre[i] == files[i]);
        }
        lemma_replan_is_noop(root, key, pre);
        let rest = spec_moves(root, key, pre);
        let f = files.last();
        assert(f == files[files.len() - 1]);
        let s = spec_moves(root, key, files);
        let bn = base_name_spec(f.path@);
        if bn is Some && bn->Some_0 != reserved_name() {
            let name = bn->Some_0;
            assert(s == rest.push((f.path@, move_target(root, key, name))));
            assert(f.path@ == move_target(root, key, name));
            assert forall|i: int| 0 <= i < s.len() implies (#[trigger] s[i]).0 == s[i].1 by {
                if i < rest.len() {
                    assert(s[i] == rest[i]);
                } else {
                    assert(s[i] == (f.path@, move_target(root, key, name)));
                }
            }
        } else {
            assert(s == rest);
        }
    }
}

} // verus!
