//! Month keys: the (year, month) pair that decides which `YY-MM` folder a
//! scanned file belongs to. The calendar conversion itself is done by
//! chrono; everything downstream of it is verified against the abstract
//! conversion function `ym_of_secs`.

use vstd::prelude::*;

verus! {

/// Largest count of whole seconds since the Unix epoch for which the
/// calendar conversion is promised to succeed: 23:59:59 UTC on the last
/// day of year 9999. The converter's own range reaches far beyond this.
pub const MAX_KEYED_SECS: i64 = 253402300799;

/// The calendar month, in the proleptic Gregorian calendar at UTC, of a
/// count of whole seconds since the Unix epoch: a (year, month) pair with
/// months numbered from 1. The pair is fixed by `secs` alone.
pub uninterp spec fn ym_of_secs(secs: int) -> (int, int);

/// Relies on chrono's `DateTime::<Utc>::from_timestamp` and the `Datelike`
/// accessors `year` and `month`: the conversion depends on the seconds
/// alone; a returned month ranges over 1..=12; timestamps up to the end of
/// year 9999 are inside the supported range (which spans about 262000
/// years either side of the common era); and a timestamp at or after the
/// epoch falls in year 1970 or later.
#[verifier::external_body]
fn ym_from_secs(secs: i64) -> (r: Option<(i32, u32)>)
    ensures
        r matches Some(ym) ==> ym_of_secs(secs as int) == (ym.0 as int, ym.1 as int),
        r matches Some(ym) ==> 1 <= ym.1 <= 12,
        0 <= secs <= MAX_KEYED_SECS ==> r.is_some(),
        r matches Some(ym) ==> (0 <= secs ==> 1970 <= ym.0),
{
    match chrono::DateTime::from_timestamp(secs, 0) {
        Some(dt) => Some((chrono::Datelike::year(&dt), chrono::Datelike::month(&dt))),
        None => None,
    }
}

/// A bucket key: the calendar year and month (1..=12) that a file's
/// captured modified time falls in.
#[derive(Clone, Copy, Debug, PartialEq, Eq, Structural)]
pub struct MonthKey {
    pub year: i32,
    pub month: u32,
}

/// A key the mover can work with: a non-negative year and a real month
/// number. Every key handed out by `key_for_secs` satisfies this.
pub open spec fn key_wf(k: MonthKey) -> bool {
    &&& 0 <= k.year
    &&& 1 <= k.month <= 12
}

/// The bucket key of a modified time, or `None` when the timestamp has no
/// usable calendar form (outside the converter's range, or before year 0,
/// which the folder naming scheme cannot express).
pub fn key_for_secs(secs: i64) -> (r: Option<MonthKey>)
    ensures
        r matches Some(k) ==> ym_of_secs(secs as int) == (k.year as int, k.month as int),
        r matches Some(k) ==> key_wf(k),
        0 <= secs <= MAX_KEYED_SECS ==> r.is_some(),
{
    match ym_from_secs(secs) {
        Some((y, m)) => {
            if y >= 0 {
                Some(MonthKey { year: y, month: m })
            } else {
                None
            }
        },
        None => None,
    }
}

} // verus!
