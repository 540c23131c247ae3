//! Path and name logic: the `YY-MM` destination folder derived from a
//! bucket key, '/'-separated path joining, base-name extraction, and the
//! reserved filename that is never moved.

use vstd::prelude::*;
use crate::month::{MonthKey, key_wf};

verus! {

/// The reserved filename: a well-known thumbnail-cache artifact. A file
/// of this name is never relocated and never counts as a reason to keep
/// a directory.
pub open spec fn reserved_name() -> Seq<char> {
    "Thumbs.db"@
}

/// Whether a base file name equals the reserved filename (exact,
/// case-sensitive match).
pub fn is_thumbs_db(name: &str) -> (r: bool)
    ensures
        r == (name@ == reserved_name()),
{
    let s = String::from_str(name);
    let t = String::from_str("Thumbs.db");
    s == t
}

/// The decimal digit characters.
pub open spec fn digit_char(d: int) -> char {
    if d == 0 {
        '0'
    } else if d == 1 {
        '1'
    } else if d == 2 {
        '2'
    } else if d == 3 {
        '3'
    } else if d == 4 {
        '4'
    } else if d == 5 {
        '5'
    } else if d == 6 {
        '6'
    } else if d == 7 {
        '7'
    } else if d == 8 {
        '8'
    } else {
        '9'
    }
}

fn digit_str(d: u32) -> (r: &'static str)
    requires
        d < 10,
    ensures
        r@ == seq![digit_char(d as int)],
{
    proof {
        reveal_strlit("0");
        reveal_strlit("1");
        reveal_strlit("2");
        reveal_strlit("3");
        reveal_strlit("4");
        reveal_strlit("5");
        reveal_strlit("6");
        reveal_strlit("7");
        reveal_strlit("8");
        reveal_strlit("9");
        assert("0"@ =~= seq![digit_char(0)]);
        assert("1"@ =~= seq![digit_char(1)]);
        assert("2"@ =~= seq![digit_char(2)]);
        assert("3"@ =~= seq![digit_char(3)]);
        assert("4"@ =~= seq![digit_char(4)]);
        assert("5"@ =~= seq![digit_char(5)]);
        assert("6"@ =~= seq![digit_char(6)]);
        assert("7"@ =~= seq![digit_char(7)]);
        assert("8"@ =~= seq![digit_char(8)]);
        assert("9"@ =~= seq![digit_char(9)]);
    }
    if d == 0 {
        "0"
    } else if d == 1 {
        "1"
    } else if d == 2 {
        "2"
    } else if d == 3 {
        "3"
    } else if d == 4 {
        "4"
    } else if d == 5 {
        "5"
    } else if d == 6 {
        "6"
    } else if d == 7 {
        "7"
    } else if d == 8 {
        "8"
    } else {
        "9"
    }
}

/// The destination folder name of a key: the last two digits of the year,
/// a dash, and the two-digit month. Two keys share a folder name exactly
/// when their months agree and their years agree modulo 100 (a collision
/// only across centuries; see `lemma_distinct_keys_distinct_folders`).
pub open spec fn month_folder(y: int, m: int) -> Seq<char> {
    seq![
        digit_char((y % 100) / 10),
        digit_char((y % 100) % 10),
        '-',
        digit_char(m / 10),
        digit_char(m % 10),
    ]
}

/// Renders a bucket key as its `YY-MM` destination folder name.
pub fn folder_name(key: MonthKey) -> (r: String)
    requires
        key_wf(key),
    ensures
        r@ == month_folder(key.year as int, key.month as int),
{
    let yy: i32 = key.year % 100;
    let m: u32 = key.month;
    let mut s = String::new();
    s.append(digit_str((yy / 10) as u32));
    s.append(digit_str((yy % 10) as u32));
    s.append("-");
    s.append(digit_str(m / 10));
    s.append(digit_str(m % 10));
    proof {
        reveal_strlit("-");
        assert("-"@ =~= seq!['-']);
        assert(s@ =~= month_folder(key.year as int, key.month as int));
    }
    s
}

/// Joins a directory path and an entry name with a '/' separator.
pub fn join_path(dir: &str, name: &str) -> (r: String)
    ensures
        r@ == dir@ + seq!['/'] + name@,
{
    let mut s = String::from_str(dir);
    s.append("/");
    s.append(name);
    proof {
        reveal_strlit("/");
        assert("/"@ =~= seq!['/']);
        assert(s@ =~= dir@ + seq!['/'] + name@);
    }
    s
}

/// The index where the base name of a '/'-separated path starts: just
/// after the last separator, or 0 when there is none. A path that ends in
/// a separator (or is empty) starts its base name at the end, i.e. has
/// none.
pub open spec fn base_start(s: Seq<char>) -> int
    decreases s.len(),
{
    if s.len() == 0 {
        0
    } else if s.last() == '/' {
        s.len() as int
    } else {
        base_start(s.drop_last())
    }
}

/// The base name of a '/'-separated path: everything after the last
/// separator, or `None` when that is empty.
pub open spec fn base_name_spec(s: Seq<char>) -> Option<Seq<char>> {
    if base_start(s) == s.len() {
        None
    } else {
        Some(s.subrange(base_start(s), s.len() as int))
    }
}

proof fn lemma_base_start_bounds(s: Seq<char>)
    ensures
        0 <= base_start(s) <= s.len(),
        base_start(s) > 0 ==> s[base_start(s) - 1] == '/',
        forall|j: int| base_start(s) <= j < s.len() ==> s[j] != '/',
    decreases s.len(),
{
    if s.len() == 0 {
    } else if s.last() == '/' {
    } else {
        lemma_base_start_bounds(s.drop_last());
        let bs = base_start(s.drop_last());
        assert(base_start(s) == bs);
        assert forall|j: int| bs <= j < s.len() implies s[j] != '/' by {
            if j < s.len() - 1 {
                assert(s.drop_last()[j] != '/');
            }
        }
    }
}

/// Extracts the base name of a '/'-separated path, or `None` when the
/// path is empty or ends in a separator.
pub fn base_name(path: &str) -> (r: Option<String>)
    ensures
        r matches Some(n) ==> base_name_spec(path@) == Some(n@),
        r is None ==> base_name_spec(path@) is None,
{
    let n = path.unicode_len();
    let mut i = n;
    while i > 0 && path.get_char(i - 1) != '/'
        invariant
            i <= n,
            n == path@.len(),
            forall|j: int| i <= j < path@.len() ==> path@[j] != '/',
        decreases i,
    {
        i = i - 1;
    }
    proof {
        lemma_base_start_bounds(path@);
        let bs = base_start(path@);
        if i < bs {
            assert(path@[bs - 1] == '/');
            assert(path@[bs - 1] != '/');
        }
        if bs < i {
            assert(path@[i - 1] == '/');
            assert(path@[i - 1] != '/');
        }
        assert(i as int == bs);
    }
    if i == n {
        None
    } else {
        let s = path.substring_char(i, n);
        Some(s.to_owned())
    }
}

/// Keys with different months, or years that differ below 100, target
/// different destination folders. (Keys a whole century apart share a
/// folder name by design; realistic scans do not span one.)
pub proof fn lemma_distinct_keys_distinct_folders(k1: MonthKey, k2: MonthKey)
    requires
        key_wf(k1),
        key_wf(k2),
        k1.year % 100 != k2.year % 100 || k1.month != k2.month,
    ensures
        month_folder(k1.year as int, k1.month as int) != month_folder(
            k2.year as int,
            k2.month as int,
        ),
{
    let y1 = k1.year as int;
    let y2 = k2.year as int;
    let m1 = k1.month as int;
    let m2 = k2.month as int;
    let f1 = month_folder(y1, m1);
    let f2 = month_folder(y2, m2);
    if f1 == f2 {
        assert(f1[0] == f2[0] && f1[1] == f2[1] && f1[3] == f2[3] && f1[4] == f2[4]);
        assert((y1 % 100) / 10 == (y2 % 100) / 10 && (y1 % 100) % 10 == (y2 % 100) % 10);
        assert(m1 / 10 == m2 / 10 && m1 % 10 == m2 % 10);
        assert(y1 % 100 == ((y1 % 100) / 10) * 10 + (y1 % 100) % 10);
        assert(y2 % 100 == ((y2 % 100) / 10) * 10 + (y2 % 100) % 10);
        assert(m1 == (m1 / 10) * 10 + m1 % 10);
        assert(m2 == (m2 / 10) * 10 + m2 % 10);
        assert(k1.year % 100 == y1 % 100 && k2.year % 100 == y2 % 100);
        assert(false);
    }
}

} // verus!

