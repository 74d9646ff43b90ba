//! Timestamps and local calendar days.
//!
//! Timestamps are milliseconds since the Unix epoch. A query locates one
//! log file per local calendar day its window touches, probing from the
//! start of the window's first day a whole day (86,400,000 ms) at a time
//! up to the end of the day holding the window's end, so no day between
//! them can be stepped over. Which instant begins a local day rests with
//! the machine's time zone, so the two calendar wrappers promise nothing
//! of their values; the probing itself is verified.

use crate::bytes::vec_u8_eq;
use chrono::TimeZone;
use vstd::prelude::*;

verus! {

/// One whole day, in milliseconds.
pub const DAY_MS: u64 = 86400000;

/// Relies on std::time::SystemTime::now and duration_since: milliseconds
/// since the Unix epoch, zero when the clock reads before the epoch.
#[verifier::external_body]
fn now_millis() -> u64 {
    match std::time::SystemTime::now().duration_since(std::time::UNIX_EPOCH) {
        Ok(d) => d.as_millis() as u64,
        Err(_) => 0,
    }
}

/// Current wall-clock time in milliseconds since the Unix epoch.
pub fn get_current_timestamp() -> u64 {
    now_millis()
}

/// Relies on chrono: Local.timestamp_millis_opt, DateTime::date_naive,
/// NaiveDate::and_hms_opt, NaiveDateTime::and_local_timezone and
/// DateTime::timestamp_millis, chained as one lookup. The first instant
/// of the local calendar day containing `timestamp`; `None` when the
/// timestamp lies outside chrono's range, local midnight of that day
/// cannot be resolved uniquely, or the day begins before the epoch (a
/// day start carries no meaning as an unsigned epoch offset then). The
/// value depends on the machine's time zone, so nothing further is
/// promised of it.
#[verifier::external_body]
pub fn get_day_start_timestamp(timestamp: u64) -> Option<u64> {
    let date = match chrono::Local.timestamp_millis_opt(timestamp as i64) {
        chrono::LocalResult::Single(d) => d,
        _ => return None,
    };
    let start = match date.date_naive().and_hms_opt(0, 0, 0) {
        Some(s) => s,
        None => return None,
    };
    match start.and_local_timezone(chrono::Local) {
        chrono::LocalResult::Single(s) => u64::try_from(s.timestamp_millis()).ok(),
        _ => None,
    }
}

/// Relies on chrono: Local.timestamp_millis_opt and DateTime::format with
/// `%Y%m%d`. The date tag naming the daily log file for the local day
/// containing `timestamp`, as bytes; `None` outside chrono's range. The
/// value depends on the machine's time zone, so nothing further is
/// promised.
#[verifier::external_body]
fn local_day_tag(timestamp: u64) -> Option<Vec<u8>> {
    match chrono::Local.timestamp_millis_opt(timestamp as i64) {
        chrono::LocalResult::Single(d) => Some(format!("{}", d.format("%Y%m%d")).into_bytes()),
        _ => None,
    }
}

/// The probe timestamps of a query: `start`, then a whole day further,
/// and so on while still at or under `bound`.
pub open spec fn spec_day_timestamps(start: int, bound: int) -> Seq<int>
    decreases bound + DAY_MS - start,
{
    if start > bound {
        Seq::empty()
    } else {
        seq![start] + spec_day_timestamps(start + DAY_MS, bound)
    }
}

/// Probes from `start_timestamp` one whole day at a time, collecting
/// every timestamp not beyond `bound`.
pub fn enumerate_day_timestamps(start_timestamp: u64, bound: u64) -> (r: Vec<u64>)
    requires
        bound <= u64::MAX - DAY_MS,
    ensures
        r@.map_values(|t: u64| t as int) == spec_day_timestamps(
            start_timestamp as int,
            bound as int,
        ),
{
    let mut r: Vec<u64> = Vec::new();
    let mut temp: u64 = start_timestamp;
    proof {
        assert(r@.map_values(|t: u64| t as int) =~= Seq::<int>::empty());
        assert(spec_day_timestamps(start_timestamp as int, bound as int) =~= Seq::<
            int,
        >::empty() + spec_day_timestamps(temp as int, bound as int));
    }
    while temp <= bound
        invariant
            bound <= u64::MAX - DAY_MS,
            spec_day_timestamps(start_timestamp as int, bound as int) =~= r@.map_values(
                |t: u64| t as int,
            ) + spec_day_timestamps(temp as int, bound as int),
        decreases bound + DAY_MS - temp,
    {
        r.push(temp);
        proof {
            assert(spec_day_timestamps(temp as int, bound as int) =~= seq![temp as int]
                + spec_day_timestamps(temp + DAY_MS, bound as int));
            assert(r@.map_values(|t: u64| t as int) =~= r@.drop_last().map_values(
                |t: u64| t as int,
            ).push(temp as int));
        }
        temp = temp + DAY_MS;
    }
    proof {
        assert(spec_day_timestamps(temp as int, bound as int) =~= Seq::<int>::empty());
        assert(r@.map_values(|t: u64| t as int) + Seq::<int>::empty() =~= r@.map_values(
            |t: u64| t as int,
        ));
    }
    r
}

/// The tags of the daily log files read between two resolved local day
/// starts: probes a whole day at a time from `start_day` up to the last
/// instant of the day beginning at `end_day_start`, resolves each probe
/// to its day's tag, and merges equal neighbouring tags — on a long
/// (fall-back) local day two probes can land in the same day, and its
/// file must not be read twice. Probes whose day the machine's time zone
/// cannot resolve contribute no tag.
pub fn day_tags_between(start_day: u64, end_day_start: u64) -> (r: Vec<Vec<u8>>)
    requires
        end_day_start <= u64::MAX - 2 * DAY_MS,
    ensures
        r@.len() <= spec_day_timestamps(
            start_day as int,
            end_day_start + DAY_MS - 1000,
        ).len(),
        forall|i: int| 0 <= i && i + 1 < r@.len() ==> (#[trigger] r@[i])@ != r@[i + 1]@,
{
    let bound = end_day_start + (DAY_MS - 1000);
    let stamps = enumerate_day_timestamps(start_day, bound);
    proof {
        assert(stamps@.map_values(|t: u64| t as int).len() == stamps@.len());
    }
    let mut tags: Vec<Vec<u8>> = Vec::new();
    let mut i: usize = 0;
    while i < stamps.len()
        invariant
            0 <= i <= stamps@.len(),
            tags@.len() <= i,
            forall|j: int| 0 <= j && j + 1 < tags@.len() ==> (#[trigger] tags@[j])@ != tags@[j + 1]@,
        decreases stamps@.len() - i,
    {
        match local_day_tag(stamps[i]) {
            Some(t) => {
                let fresh = if tags.len() == 0 {
                    true
                } else {
                    !vec_u8_eq(&tags[tags.len() - 1], &t)
                };
                if fresh {
                    let ghost old_tags = tags@;
                    tags.push(t);
                    proof {
                        assert forall|j: int| 0 <= j && j + 1 < tags@.len() implies (
                        #[trigger] tags@[j])@ != tags@[j + 1]@ by {
                            if j + 1 < old_tags.len() {
                                assert(tags@[j] == old_tags[j]);
                                assert(tags@[j + 1] == old_tags[j + 1]);
                            } else {
                                assert(tags@[j] == old_tags[old_tags.len() - 1]);
                            }
                        }
                    }
                }
            },
            None => {},
        }
        i = i + 1;
    }
    tags
}

/// The daily log files a query over `[start_timestamp, end_timestamp]`
/// reads: the local day start of each end of the window is resolved, and
/// the days between them are probed and tagged by [`day_tags_between`].
/// The two day starts come back with the tags, so a caller holds what
/// was probed. `None` when either day start cannot be resolved or lies
/// beyond the probing range; which instant begins a local day rests with
/// the machine's time zone, so nothing more is promised of the values.
pub fn log_day_tags(start_timestamp: u64, end_timestamp: u64) -> (r: Option<
    (u64, u64, Vec<Vec<u8>>),
>)
    ensures
        match r {
            Some(t) => {
                &&& t.1 <= u64::MAX - 2 * DAY_MS
                &&& t.2@.len() <= spec_day_timestamps(
                    t.0 as int,
                    t.1 + DAY_MS - 1000,
                ).len()
                &&& forall|i: int| 0 <= i && i + 1 < t.2@.len() ==> (#[trigger] t.2@[i])@ != t.2@[i + 1]@
            },
            None => true,
        },
{
    let start_day = match get_day_start_timestamp(start_timestamp) {
        Some(d) => d,
        None => {
            return None;
        },
    };
    let end_day_start = match get_day_start_timestamp(end_timestamp) {
        Some(d) => d,
        None => {
            return None;
        },
    };
    if end_day_start > u64::MAX - 2 * DAY_MS {
        return None;
    }
    let tags = day_tags_between(start_day, end_day_start);
    Some((start_day, end_day_start, tags))
}

/// Both ends of a window are probed: the probes from `start_day` include
/// `start_day` itself and one timestamp lying within the whole day from
/// `end_day_start` on — also when the window ends at that midnight
/// exactly. The arguments are local day starts, which lie a whole number
/// of days apart up to the time-zone shifts between them: the remainder
/// below is zero under a fixed offset and no less than a second under
/// any civil time zone.
pub proof fn lemma_probes_reach_last_day(start_day: int, end_day_start: int)
    requires
        0 <= start_day <= end_day_start,
        (end_day_start - start_day) % (DAY_MS as int) == 0 || (end_day_start - start_day) % (
        DAY_MS as int) >= 1000,
    ensures
        spec_day_timestamps(start_day, end_day_start + DAY_MS - 1000).contains(start_day),
        exists|t: int|
            #[trigger] spec_day_timestamps(start_day, end_day_start + DAY_MS - 1000).contains(
                t,
            ) && end_day_start <= t <= end_day_start + DAY_MS - 1000,
    decreases end_day_start - start_day,
{
    let start = start_day;
    let m = DAY_MS as int;
    let bound = end_day_start + m - 1000;
    let probes = spec_day_timestamps(start, bound);
    let rest = spec_day_timestamps(start + m, bound);
    assert(start <= bound);
    assert(probes =~= seq![start] + rest);
    assert(probes[0] == start);
    assert(probes.contains(start));
    let d = end_day_start - start;
    if d == 0 {
        assert(end_day_start <= start <= bound);
    } else if d == m {
        assert(rest[0] == start + m);
        assert(rest.contains(start + m));
        assert(probes.contains(start + m)) by {
            let j = choose|j: int| 0 <= j < rest.len() && rest[j] == start + m;
            assert(probes[j + 1] == start + m);
        }
        assert(end_day_start <= start + m <= bound);
    } else if d > m {
        assert((end_day_start - (start + m)) % m == (end_day_start - start) % m) by {
            vstd::arithmetic::div_mod::lemma_mod_multiples_vanish(
                -1,
                end_day_start - start,
                m,
            );
        }
        lemma_probes_reach_last_day(start + m, end_day_start);
        let t = choose|t: int|
            #[trigger] spec_day_timestamps(start + m, bound).contains(t) && end_day_start <= t
                <= bound;
        assert(probes.contains(t)) by {
            let j = choose|j: int| 0 <= j < rest.len() && rest[j] == t;
            assert(probes[j + 1] == t);
        }
    } else {
        assert(0 < d < m);
        assert(d % m == d) by {
            vstd::arithmetic::div_mod::lemma_small_mod(d as nat, m as nat);
        }
        assert(d >= 1000);
        let t = start + m;
        assert(end_day_start <= t <= bound);
        assert(t <= bound);
        assert(rest =~= seq![t] + spec_day_timestamps(t + m, bound));
        assert(rest[0] == t);
        assert(probes[1] == t);
        assert(probes.contains(t));
    }
}

} // verus!
