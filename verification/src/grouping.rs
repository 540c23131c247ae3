//! The month grouper: partitions the scanned inventory, in scan order,
//! into buckets of adjacent records that share a (year, month) key.
//!
//! Grouping is contiguous-run based: two records land in the same bucket
//! only if they share a key and no record with a different key stands
//! between them in the scanned sequence. If the scan order interleaves
//! months, one calendar month can legitimately yield several buckets.

use vstd::prelude::*;
use crate::file_info::FileInfo;
use crate::month::{MonthKey, key_wf, key_for_secs, ym_of_secs, MAX_KEYED_SECS};

verus! {

/// A scanned record paired with the bucket key computed from its captured
/// modified time.
pub struct KeyedFile {
    pub key: MonthKey,
    pub file: FileInfo,
}

/// One bucket: a maximal run of adjacent records sharing `key`, in scan
/// order.
pub struct Bucket {
    pub key: MonthKey,
    pub files: Vec<FileInfo>,
}

/// The records of a bucket, each tagged with the bucket's key.
pub open spec fn bucket_entries(b: Bucket) -> Seq<KeyedFile> {
    b.files@.map(|i: int, f: FileInfo| KeyedFile { key: b.key, file: f })
}

/// The per-bucket record runs of a bucket sequence.
pub open spec fn buckets_entries(bs: Seq<Bucket>) -> Seq<Seq<KeyedFile>> {
    bs.map(|i: int, b: Bucket| bucket_entries(b))
}

/// The records of a keyed sequence, without their keys.
pub open spec fn entry_files(s: Seq<KeyedFile>) -> Seq<FileInfo> {
    s.map(|i: int, e: KeyedFile| e.file)
}

/// Appends one record to a run partition: onto the last run if it carries
/// the same key, else as a new singleton run.
pub open spec fn push_entry(gs: Seq<Seq<KeyedFile>>, x: KeyedFile) -> Seq<Seq<KeyedFile>> {
    if gs.len() > 0 && gs.last().len() > 0 && gs.last().last().key == x.key {
        gs.update(gs.len() - 1, gs.last().push(x))
    } else {
        gs.push(seq![x])
    }
}

/// The contiguous-run partition of a keyed sequence: maximal runs of
/// adjacent entries with equal keys, in order.
pub open spec fn group_runs(s: Seq<KeyedFile>) -> Seq<Seq<KeyedFile>>
    decreases s.len(),
{
    if s.len() == 0 {
        Seq::empty()
    } else {
        push_entry(group_runs(s.drop_last()), s.last())
    }
}

/// The runs of a partition, concatenated back in order.
pub open spec fn flatten_runs(gs: Seq<Seq<KeyedFile>>) -> Seq<KeyedFile>
    decreases gs.len(),
{
    if gs.len() == 0 {
        Seq::empty()
    } else {
        flatten_runs(gs.drop_last()) + gs.last()
    }
}

/// A well-formed run partition: every run is nonempty and uniform in key,
/// and adjacent runs carry different keys.
pub open spec fn runs_wf(gs: Seq<Seq<KeyedFile>>) -> bool {
    &&& forall|i: int| 0 <= i < gs.len() ==> #[trigger] gs[i].len() > 0
    &&& forall|i: int, j: int|
        0 <= i < gs.len() && 0 <= j < gs[i].len() ==> #[trigger] gs[i][j].key == gs[i][0].key
    &&& forall|i: int| 0 <= i < gs.len() - 1 ==> #[trigger] gs[i][0].key != gs[i + 1][0].key
}

/// Nothing is lost and nothing is duplicated: concatenating the runs of
/// the contiguous-run partition, in order, gives back the input sequence
/// exactly.
pub proof fn lemma_group_runs_flatten(s: Seq<KeyedFile>)
    ensures
        flatten_runs(group_runs(s)) == s,
    decreases s.len(),
{
    if s.len() == 0 {
        assert(flatten_runs(group_runs(s)) =~= s);
    } else {
        lemma_group_runs_flatten(s.drop_last());
        let gs = group_runs(s.drop_last());
        let x = s.last();
        if gs.len() > 0 && gs.last().len() > 0 && gs.last().last().key == x.key {
            let gs2 = gs.update(gs.len() - 1, gs.last().push(x));
            assert(gs2.drop_last() =~= gs.drop_last());
            assert(gs2.last() =~= gs.last().push(x));
            assert(flatten_runs(gs2) =~= flatten_runs(gs.drop_last()) + gs.last().push(x));
            assert(flatten_runs(gs.drop_last()) + gs.last().push(x) =~= (flatten_runs(gs.drop_last())
                + gs.last()).push(x));
            assert(flatten_runs(gs2) =~= s.drop_last().push(x));
        } else {
            let gs2 = gs.push(seq![x]);
            assert(gs2.drop_last() =~= gs);
            assert(flatten_runs(gs2) =~= flatten_runs(gs) + seq![x]);
            assert(flatten_runs(gs2) =~= s.drop_last().push(x));
        }
        assert(s.drop_last().push(x) =~= s);
    }
}

/// The contiguous-run partition is well formed: runs are nonempty and
/// uniform in key, and adjacent runs differ in key. Together with
/// `lemma_group_runs_flatten` this pins the grouping policy: equal keys
/// stay together exactly as long as they are adjacent in the input.
pub proof fn lemma_group_runs_wf(s: Seq<KeyedFile>)
    ensures
        runs_wf(group_runs(s)),
    decreases s.len(),
{
    if s.len() == 0 {
    } else {
        lemma_group_runs_wf(s.drop_last());
        let gs = group_runs(s.drop_last());
        let x = s.last();
        if gs.len() > 0 && gs.last().len() > 0 && gs.last().last().key == x.key {
            let gs2 = gs.update(gs.len() - 1, gs.last().push(x));
            assert forall|i: int, j: int|
                0 <= i < gs2.len() && 0 <= j < gs2[i].len() implies #[trigger] gs2[i][j].key
                == gs2[i][0].key by {
                if i == gs2.len() - 1 {
                    assert(gs.last().last().key == gs.last()[0].key);
                    if j < gs2[i].len() - 1 {
                        assert(gs2[i][j] == gs[i][j]);
                    }
                }
            }
        } else {
            let gs2 = gs.push(seq![x]);
            if gs.len() > 0 {
                assert(gs.last().len() > 0);
                assert(gs.last().last().key == gs.last()[0].key);
                assert(gs2[gs2.len() - 2][0].key != gs2[gs2.len() - 1][0].key);
            }
        }
    }
}

/// The files of a bucket sequence, concatenated in bucket order.
pub open spec fn flatten_buckets(bs: Seq<Bucket>) -> Seq<FileInfo>
    decreases bs.len(),
{
    if bs.len() == 0 {
        Seq::empty()
    } else {
        flatten_buckets(bs.drop_last()) + bs.last().files@
    }
}

proof fn lemma_buckets_entries_push(bs: Seq<Bucket>, b: Bucket)
    ensures
        buckets_entries(bs.push(b)) =~= buckets_entries(bs).push(bucket_entries(b)),
{
}

proof fn lemma_bucket_entries_push(b: Bucket, f: FileInfo, b2: Bucket)
    requires
        b2.key == b.key,
        b2.files@ == b.files@.push(f),
    ensures
        bucket_entries(b2) =~= bucket_entries(b).push(KeyedFile { key: b.key, file: f }),
{
}

proof fn lemma_entry_files_concat(a: Seq<KeyedFile>, b: Seq<KeyedFile>)
    ensures
        entry_files(a + b) =~= entry_files(a) + entry_files(b),
{
}

proof fn lemma_flatten_buckets_files(bs: Seq<Bucket>)
    ensures
        flatten_buckets(bs) == entry_files(flatten_runs(buckets_entries(bs))),
    decreases bs.len(),
{
    if bs.len() == 0 {
        assert(flatten_buckets(bs) =~= entry_files(flatten_runs(buckets_entries(bs))));
    } else {
        lemma_flatten_buckets_files(bs.drop_last());
        let be = buckets_entries(bs);
        assert(be.drop_last() =~= buckets_entries(bs.drop_last()));
        assert(be.last() == bucket_entries(bs.last()));
        lemma_entry_files_concat(flatten_runs(be.drop_last()), be.last());
        assert(entry_files(bucket_entries(bs.last())) =~= bs.last().files@);
        assert(flatten_buckets(bs) =~= entry_files(flatten_runs(be)));
    }
}

/// Every entry of every run of a partition stands somewhere in its
/// concatenation.
pub proof fn lemma_flatten_runs_index(gs: Seq<Seq<KeyedFile>>, i: int, j: int)
    requires
        0 <= i < gs.len(),
        0 <= j < gs[i].len(),
    ensures
        exists|k: int|
            0 <= k < flatten_runs(gs).len() && #[trigger] flatten_runs(gs)[k] == gs[i][j],
    decreases gs.len(),
{
    let pre = flatten_runs(gs.drop_last());
    if i == gs.len() - 1 {
        assert(flatten_runs(gs)[pre.len() + j] == gs[i][j]);
    } else {
        lemma_flatten_runs_index(gs.drop_last(), i, j);
        let k = choose|k: int|
            0 <= k < pre.len() && #[trigger] pre[k] == gs.drop_last()[i][j];
        assert(flatten_runs(gs)[k] == gs[i][j]);
    }
}

/// Partitions the keyed records, in order, into buckets of adjacent
/// records sharing a key: the executable form of `group_runs`.
pub fn group_adjacent(keyed: Vec<KeyedFile>) -> (buckets: Vec<Bucket>)
    ensures
        buckets_entries(buckets@) == group_runs(keyed@),
{
    let ghost orig = keyed@;
    let mut rest = keyed;
    let mut buckets: Vec<Bucket> = Vec::new();
    let mut cur: Option<Bucket> = None;
    let ghost mut i: int = 0;
    while rest.len() > 0
        invariant
            0 <= i <= orig.len(),
            rest@ == orig.subrange(i, orig.len() as int),
            cur is None ==> i == 0 && buckets@.len() == 0,
            cur matches Some(c) ==> c.files@.len() > 0 && group_runs(orig.subrange(0, i))
                == buckets_entries(buckets@).push(bucket_entries(c)),
        decreases rest@.len(),
    {
        let x = rest.remove(0);
        proof {
            assert(x == orig[i]);
            assert(orig.subrange(0, i + 1).drop_last() =~= orig.subrange(0, i));
            assert(orig.subrange(0, i + 1).last() == x);
        }
        cur = match cur {
            None => {
                let b = Bucket { key: x.key, files: vec![x.file] };
                proof {
                    assert(bucket_entries(b) =~= seq![x]);
                    assert(group_runs(orig.subrange(0, i + 1)) =~= push_entry(
                        group_runs(orig.subrange(0, i)),
                        x,
                    ));
                    assert(group_runs(orig.subrange(0, i)) =~= Seq::<Seq<KeyedFile>>::empty());
                    assert(push_entry(Seq::<Seq<KeyedFile>>::empty(), x) =~= seq![seq![x]]);
                    assert(buckets_entries(buckets@).push(bucket_entries(b)) =~= seq![seq![x]]);
                }
                Some(b)
            },
            Some(mut c) => {
                let ghost c0 = c;
                let ghost gs = group_runs(orig.subrange(0, i));
                proof {
                    assert(gs.last() == bucket_entries(c0));
                    assert(bucket_entries(c0).len() == c0.files@.len());
                    assert(bucket_entries(c0).last() == KeyedFile {
                        key: c0.key,
                        file: c0.files@.last(),
                    });
                }
                if c.key.year == x.key.year && c.key.month == x.key.month {
                    c.files.push(x.file);
                    proof {
                        assert(c.key == c0.key);
                        assert(gs.last().last().key == x.key);
                        assert(group_runs(orig.subrange(0, i + 1)) == gs.update(
                            gs.len() - 1,
                            gs.last().push(x),
                        ));
                        lemma_bucket_entries_push(c0, x.file, c);
                        assert(KeyedFile { key: c0.key, file: x.file } == x);
                        assert(gs.update(gs.len() - 1, gs.last().push(x))
                            =~= buckets_entries(buckets@).push(bucket_entries(c)));
                    }
                    Some(c)
                } else {
                    proof {
                        assert(gs.last().last().key == c0.key);
                        assert(c0.key != x.key);
                        assert(group_runs(orig.subrange(0, i + 1)) == gs.push(seq![x]));
                    }
                    let ghost bs0 = buckets@;
                    buckets.push(c);
                    let b = Bucket { key: x.key, files: vec![x.file] };
                    proof {
                        lemma_buckets_entries_push(bs0, c0);
                        assert(bucket_entries(b) =~= seq![x]);
                        assert(gs.push(seq![x]) =~= buckets_entries(buckets@).push(
                            bucket_entries(b),
                        ));
                    }
                    Some(b)
                }
            },
        };
        proof {
            i = i + 1;
        }
    }
    proof {
        assert(orig.subrange(0, i) =~= orig);
    }
    match cur {
        None => {
            proof {
                assert(group_runs(orig) =~= buckets_entries(buckets@));
            }
        },
        Some(c) => {
            let ghost c0 = c;
            let ghost bs0 = buckets@;
            buckets.push(c);
            proof {
                lemma_buckets_entries_push(bs0, c0);
                assert(buckets_entries(buckets@) =~= group_runs(orig));
            }
        },
    }
    buckets
}

proof fn lemma_entry_files_push(s: Seq<KeyedFile>, e: KeyedFile)
    ensures
        entry_files(s.push(e)) =~= entry_files(s).push(e.file),
{
}

/// Pairs each record with the bucket key of its captured modified time.
/// Records whose timestamp has no usable calendar form are set aside in
/// the second component, in order, so that the caller can report them;
/// for timestamps between the epoch and the end of year 9999 none are.
pub fn assign_keys(files: Vec<FileInfo>) -> (r: (Vec<KeyedFile>, Vec<FileInfo>))
    ensures
        forall|i: int| 0 <= i < r.0@.len() ==> key_wf((#[trigger] r.0@[i]).key),
        forall|i: int|
            0 <= i < r.0@.len() ==> ym_of_secs((#[trigger] r.0@[i]).file.modified_secs as int) == (
            r.0@[i].key.year as int,
            r.0@[i].key.month as int,
            ),
        entry_files(r.0@).to_multiset().add(r.1@.to_multiset()) == files@.to_multiset(),
        (forall|i: int|
            0 <= i < files@.len() ==> 0 <= #[trigger] files@[i].modified_secs
                <= MAX_KEYED_SECS) ==> r.1@.len() == 0 && entry_files(r.0@) == files@,
{
    broadcast use vstd::seq_lib::group_to_multiset_ensures;

    let ghost orig = files@;
    let mut rest = files;
    let mut keyed: Vec<KeyedFile> = Vec::new();
    let mut skipped: Vec<FileInfo> = Vec::new();
    let ghost mut i: int = 0;
    while rest.len() > 0
        invariant
            0 <= i <= orig.len(),
            rest@ == orig.subrange(i, orig.len() as int),
            forall|j: int|
                0 <= j < keyed@.len() ==> key_wf((#[trigger] keyed@[j]).key) && ym_of_secs(
                    keyed@[j].file.modified_secs as int,
                ) == (keyed@[j].key.year as int, keyed@[j].key.month as int),
            entry_files(keyed@).to_multiset().add(skipped@.to_multiset()) == orig.subrange(
                0,
                i,
            ).to_multiset(),
            (forall|j: int|
                0 <= j < i ==> 0 <= #[trigger] orig[j].modified_secs <= MAX_KEYED_SECS)
                ==> skipped@.len() == 0 && entry_files(keyed@) == orig.subrange(0, i),
        decreases rest@.len(),
    {
        broadcast use vstd::seq_lib::group_to_multiset_ensures;

        let f = rest.remove(0);
        proof {
            assert(f == orig[i]);
            assert(orig.subrange(0, i + 1) =~= orig.subrange(0, i).push(f));
        }
        let ghost keyed0 = keyed@;
        let ghost skipped0 = skipped@;
        match key_for_secs(f.modified_secs) {
            Some(k) => {
                let ghost fg = f;
                keyed.push(KeyedFile { key: k, file: f });
                proof {
                    assert forall|j: int| 0 <= j < keyed@.len() implies key_wf(
                        (#[trigger] keyed@[j]).key,
                    ) && ym_of_secs(keyed@[j].file.modified_secs as int) == (
                        keyed@[j].key.year as int,
                        keyed@[j].key.month as int,
                    ) by {
                        if j < keyed0.len() {
                            assert(keyed@[j] == keyed0[j]);
                        } else {
                            assert(keyed@[j] == KeyedFile { key: k, file: fg });
                        }
                    }
                    lemma_entry_files_push(keyed0, KeyedFile { key: k, file: fg });
                    assert(entry_files(keyed@).to_multiset() =~= entry_files(
                        keyed0,
                    ).to_multiset().insert(fg));
                    assert(entry_files(keyed@).to_multiset().add(skipped@.to_multiset())
                        =~= orig.subrange(0, i + 1).to_multiset());
                    if forall|j: int|
                        0 <= j < i + 1 ==> 0 <= #[trigger] orig[j].modified_secs
                            <= MAX_KEYED_SECS {
                        assert(entry_files(keyed@) =~= orig.subrange(0, i + 1));
                    }
                }
            },
            None => {
                let ghost fg = f;
                skipped.push(f);
                proof {
                    assert(skipped@.to_multiset() =~= skipped0.to_multiset().insert(fg));
                    assert(entry_files(keyed@).to_multiset().add(skipped@.to_multiset())
                        =~= orig.subrange(0, i + 1).to_multiset());
                    assert(!(0 <= fg.modified_secs <= MAX_KEYED_SECS));
                }
            },
        }
        proof {
            i = i + 1;
        }
    }
    proof {
        assert(orig.subrange(0, i) =~= orig);
    }
    (keyed, skipped)
}

/// The whole grouper: keys every scanned record by the calendar month of
/// its captured modified time and partitions the sequence into
/// contiguous-run buckets, in first-occurrence order. Records whose
/// timestamp has no usable calendar form come back in the second
/// component; for timestamps between the epoch and the end of year 9999
/// that component is empty and the buckets carry the scan exactly.
pub fn group_files(files: Vec<FileInfo>) -> (r: (Vec<Bucket>, Vec<FileInfo>))
    ensures
        forall|i: int| 0 <= i < r.0@.len() ==> #[trigger] r.0@[i].files@.len() > 0,
        forall|i: int| 0 <= i < r.0@.len() ==> key_wf(#[trigger] r.0@[i].key),
        forall|i: int, j: int|
            0 <= i < r.0@.len() && 0 <= j < r.0@[i].files@.len() ==> ym_of_secs(
                (#[trigger] r.0@[i].files@[j]).modified_secs as int,
            ) == (r.0@[i].key.year as int, r.0@[i].key.month as int),
        forall|i: int| 0 <= i < r.0@.len() - 1 ==> (#[trigger] r.0@[i].key) != r.0@[i + 1].key,
        flatten_buckets(r.0@).to_multiset().add(r.1@.to_multiset()) == files@.to_multiset(),
        (forall|i: int|
            0 <= i < files@.len() ==> 0 <= #[trigger] files@[i].modified_secs
                <= MAX_KEYED_SECS) ==> r.1@.len() == 0 && flatten_buckets(r.0@) == files@,
        files@.len() == 0 ==> r.0@.len() == 0 && r.1@.len() == 0,
{
    let (keyed, skipped) = assign_keys(files);
    let ghost kq = keyed@;
    let buckets = group_adjacent(keyed);
    proof {
        let gs = buckets_entries(buckets@);
        lemma_group_runs_flatten(kq);
        lemma_group_runs_wf(kq);
        lemma_flatten_buckets_files(buckets@);
        assert(flatten_runs(gs) == kq);
        assert(flatten_buckets(buckets@) == entry_files(kq));
        assert forall|i: int| 0 <= i < buckets@.len() implies #[trigger] buckets@[i].files@.len()
            > 0 by {
            assert(gs[i] == bucket_entries(buckets@[i]));
            assert(gs[i].len() > 0);
        }
        assert forall|i: int, j: int|
            0 <= i < buckets@.len() && 0 <= j < buckets@[i].files@.len() implies ym_of_secs(
            (#[trigger] buckets@[i].files@[j]).modified_secs as int,
        ) == (buckets@[i].key.year as int, buckets@[i].key.month as int) && key_wf(
            buckets@[i].key,
        ) by {
            assert(gs[i] == bucket_entries(buckets@[i]));
            assert(gs[i][j] == KeyedFile { key: buckets@[i].key, file: buckets@[i].files@[j] });
            lemma_flatten_runs_index(gs, i, j);
            let k = choose|k: int|
                0 <= k < flatten_runs(gs).len() && #[trigger] flatten_runs(gs)[k] == gs[i][j];
            assert(kq[k] == gs[i][j]);
            assert(key_wf(kq[k].key));
            assert(ym_of_secs(kq[k].file.modified_secs as int) == (
                kq[k].key.year as int,
                kq[k].key.month as int,
            ));
        }
        assert forall|i: int| 0 <= i < buckets@.len() implies key_wf(
            #[trigger] buckets@[i].key,
        ) by {
            assert(buckets@[i].files@.len() > 0);
            assert(ym_of_secs((buckets@[i].files@[0]).modified_secs as int) == (
                buckets@[i].key.year as int,
                buckets@[i].key.month as int,
            ) && key_wf(buckets@[i].key));
        }
        assert forall|i: int| 0 <= i < buckets@.len() - 1 implies (#[trigger] buckets@[i].key)
            != buckets@[i + 1].key by {
            assert(gs[i] == bucket_entries(buckets@[i]));
            assert(gs[i + 1] == bucket_entries(buckets@[i + 1]));
            assert(gs[i][0].key == buckets@[i].key);
            assert(gs[i + 1][0].key == buckets@[i + 1].key);
        }
        if files@.len() == 0 {
            assert(entry_files(kq).to_multiset().add(skipped@.to_multiset())
                =~= files@.to_multiset());
            assert(skipped@.len() == 0 && entry_files(kq) == files@);
            assert(kq.len() == 0);
            assert(buckets_entries(buckets@).len() == 0);
        }
    }
    (buckets, skipped)
}

} // verus!
