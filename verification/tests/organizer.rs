use month_organizer::cleanup::{dirs_to_delete, has_visible_files, SubdirListing};
use month_organizer::file_info::FileInfo;
use month_organizer::grouping::{group_files, Bucket};
use month_organizer::month::{key_for_secs, MonthKey};
use month_organizer::mover::moves_for_bucket;
use month_organizer::paths::{base_name, folder_name, is_thumbs_db, join_path};

// Whole seconds since the Unix epoch, at 00:00 UTC of the named day.
const MAR_1_2024: i64 = 1709251200;
const MAR_15_2024: i64 = 1710460800;
const APR_1_2024: i64 = 1711929600;

fn record(path: &str, secs: i64) -> FileInfo {
    FileInfo::new(String::from(path), secs)
}

#[test]
fn key_of_epoch_start() {
    let k = key_for_secs(0).unwrap();
    assert_eq!(k.year, 1970);
    assert_eq!(k.month, 1);
}

#[test]
fn key_of_march_2024() {
    let k = key_for_secs(MAR_1_2024).unwrap();
    assert_eq!(k.year, 2024);
    assert_eq!(k.month, 3);
    let k2 = key_for_secs(MAR_15_2024).unwrap();
    assert_eq!(k2.year, 2024);
    assert_eq!(k2.month, 3);
}

#[test]
fn key_of_far_out_of_range_timestamp() {
    assert!(key_for_secs(i64::MIN).is_none());
}

#[test]
fn adjacent_runs_split_on_key_change() {
    // Key sequence [A, A, B, A] must yield three buckets [A, A], [B], [A],
    // not a global group-by into two.
    let files = vec![
        record("r/one.jpg", MAR_1_2024),
        record("r/two.jpg", MAR_15_2024),
        record("r/three.jpg", APR_1_2024),
        record("r/four.jpg", MAR_1_2024),
    ];
    let (buckets, skipped) = group_files(files);
    assert!(skipped.is_empty());
    assert_eq!(buckets.len(), 3);
    assert_eq!((buckets[0].key.year, buckets[0].key.month), (2024, 3));
    assert_eq!((buckets[1].key.year, buckets[1].key.month), (2024, 4));
    assert_eq!((buckets[2].key.year, buckets[2].key.month), (2024, 3));
    assert_eq!(buckets[0].files.len(), 2);
    assert_eq!(buckets[0].files[0].path, "r/one.jpg");
    assert_eq!(buckets[0].files[1].path, "r/two.jpg");
    assert_eq!(buckets[1].files.len(), 1);
    assert_eq!(buckets[1].files[0].path, "r/three.jpg");
    assert_eq!(buckets[2].files.len(), 1);
    assert_eq!(buckets[2].files[0].path, "r/four.jpg");
}

#[test]
fn buckets_carry_the_scan_exactly_once() {
    let files = vec![
        record("r/a", MAR_1_2024),
        record("r/b", APR_1_2024),
        record("r/c", MAR_15_2024),
        record("r/d", MAR_15_2024),
    ];
    let (buckets, skipped) = group_files(files);
    assert!(skipped.is_empty());
    let mut seen: Vec<String> = Vec::new();
    for b in &buckets {
        for f in &b.files {
            assert_eq!(key_for_secs(f.modified_secs).unwrap(), b.key);
            seen.push(f.path.clone());
        }
    }
    assert_eq!(seen, vec!["r/a", "r/b", "r/c", "r/d"]);
}

#[test]
fn out_of_range_record_is_set_aside() {
    let files = vec![record("r/ok", MAR_1_2024), record("r/odd", i64::MIN)];
    let (buckets, skipped) = group_files(files);
    assert_eq!(buckets.len(), 1);
    assert_eq!(skipped.len(), 1);
    assert_eq!(skipped[0].path, "r/odd");
}

#[test]
fn empty_scan_yields_no_buckets_and_no_deletions() {
    let (buckets, skipped) = group_files(Vec::new());
    assert!(buckets.is_empty());
    assert!(skipped.is_empty());
    assert!(dirs_to_delete(&Vec::new()).is_empty());
}

#[test]
fn folder_name_is_zero_padded_yy_mm() {
    assert_eq!(folder_name(MonthKey { year: 2024, month: 3 }), "24-03");
    assert_eq!(folder_name(MonthKey { year: 1999, month: 12 }), "99-12");
    assert_eq!(folder_name(MonthKey { year: 2005, month: 7 }), "05-07");
    assert_eq!(folder_name(MonthKey { year: 2100, month: 1 }), "00-01");
}

#[test]
fn join_path_uses_slash() {
    assert_eq!(join_path("root", "24-03"), "root/24-03");
    assert_eq!(join_path("root/24-03", "a.txt"), "root/24-03/a.txt");
}

#[test]
fn base_name_takes_last_component() {
    assert_eq!(base_name("a/b/c.txt").unwrap(), "c.txt");
    assert_eq!(base_name("c.txt").unwrap(), "c.txt");
    assert!(base_name("a/").is_none());
    assert!(base_name("").is_none());
}

#[test]
fn reserved_name_match_is_exact() {
    assert!(is_thumbs_db("Thumbs.db"));
    assert!(!is_thumbs_db("thumbs.db"));
    assert!(!is_thumbs_db("Thumbs.db.bak"));
    assert!(!is_thumbs_db("r/Thumbs.db"));
}

#[test]
fn reserved_file_is_never_planned_for_a_move() {
    let bucket = Bucket {
        key: MonthKey { year: 2024, month: 3 },
        files: vec![record("r/Thumbs.db", MAR_1_2024), record("r/x.jpg", MAR_1_2024)],
    };
    let ops = moves_for_bucket("r", &bucket);
    assert_eq!(ops.len(), 1);
    assert_eq!(ops[0].from, "r/x.jpg");
    assert_eq!(ops[0].to, "r/24-03/x.jpg");
}

#[test]
fn record_without_base_name_is_skipped_in_plan() {
    let bucket = Bucket {
        key: MonthKey { year: 2024, month: 3 },
        files: vec![record("r/sub/", MAR_1_2024), record("r/y.jpg", MAR_1_2024)],
    };
    let ops = moves_for_bucket("r", &bucket);
    assert_eq!(ops.len(), 1);
    assert_eq!(ops[0].from, "r/y.jpg");
}

#[test]
fn replanning_an_organized_tree_moves_in_place() {
    // A second run finds the files already inside their dated folder; the
    // planned renames are self-renames, the documented no-op path.
    let files = vec![record("r/24-03/a.txt", MAR_1_2024), record("r/24-03/b.txt", MAR_15_2024)];
    let (buckets, skipped) = group_files(files);
    assert!(skipped.is_empty());
    assert_eq!(buckets.len(), 1);
    let ops = moves_for_bucket("r", &buckets[0]);
    assert_eq!(ops.len(), 2);
    for op in &ops {
        assert_eq!(op.from, op.to);
    }
}

#[test]
fn cleanup_keeps_only_directories_with_visible_entries() {
    assert!(!has_visible_files(&Vec::new()));
    assert!(!has_visible_files(&vec![String::from("Thumbs.db")]));
    assert!(has_visible_files(&vec![String::from("Thumbs.db"), String::from("x")]));
    assert!(has_visible_files(&vec![String::from("photo.jpg")]));
}

#[test]
fn cleanup_deletes_empty_and_reserved_only_directories() {
    let subdirs = vec![
        SubdirListing { name: String::from("old"), entries: Vec::new() },
        SubdirListing {
            name: String::from("cache"),
            entries: vec![String::from("Thumbs.db")],
        },
        SubdirListing {
            name: String::from("24-03"),
            entries: vec![String::from("a.txt"), String::from("b.txt")],
        },
    ];
    let doomed = dirs_to_delete(&subdirs);
    assert_eq!(doomed, vec!["old", "cache"]);
}

#[test]
fn end_to_end_plan_for_march_root() {
    // Root holds a.txt and b.txt, both modified in March 2024, and an
    // empty directory old/. The plan puts both files into 24-03 and the
    // sweep removes old/; the root itself is never a candidate.
    let files = vec![record("root/a.txt", MAR_1_2024), record("root/b.txt", MAR_15_2024)];
    let (buckets, skipped) = group_files(files);
    assert!(skipped.is_empty());
    assert_eq!(buckets.len(), 1);
    assert_eq!(folder_name(buckets[0].key), "24-03");
    let ops = moves_for_bucket("root", &buckets[0]);
    assert_eq!(ops.len(), 2);
    assert_eq!(ops[0].from, "root/a.txt");
    assert_eq!(ops[0].to, "root/24-03/a.txt");
    assert_eq!(ops[1].from, "root/b.txt");
    assert_eq!(ops[1].to, "root/24-03/b.txt");
    let subdirs = vec![SubdirListing { name: String::from("old"), entries: Vec::new() }];
    let doomed = dirs_to_delete(&subdirs);
    assert_eq!(doomed, vec!["old"]);
}
