//! Replaying a log over a queried time range.
//!
//! The replay walks the logged events in order, keeps one cursor for the
//! application currently in front, reconstructs contiguous usage intervals
//! per application, sums them, and orders the result by total time in
//! front, largest first. Events outside the queried range are skipped
//! entirely: they neither open nor close an interval and do not move the
//! cursor.

use crate::app_name::display_name_from_path;
use crate::app_name::opt_bytes_view;
use crate::app_name::spec_display_name;
use crate::app_name::views_of;
use crate::bytes::copy_range;
use crate::bytes::vec_u8_eq;
use crate::event::Event;
use crate::event::EventModel;
use crate::event::EventType;
use crate::event::parse_line;
use crate::event::spec_parse_line;
use vstd::prelude::*;

verus! {

/// Per-application result of one query: the derived name, the path of the
/// most recent event that created or extended this entry, the sum of the
/// interval lengths in milliseconds, and the intervals themselves in the
/// order they were discovered.
#[derive(Debug, PartialEq, Eq)]
pub struct AppUsage {
    pub name: Vec<u8>,
    pub path: Vec<u8>,
    pub total_duration_ms: u64,
    pub durations: Vec<(u64, u64)>,
}

/// Mathematical image of an [`AppUsage`].
pub ghost struct AppUsageModel {
    pub name: Seq<u8>,
    pub path: Seq<u8>,
    pub total_duration_ms: u64,
    pub durations: Seq<(u64, u64)>,
}

impl View for AppUsage {
    type V = AppUsageModel;

    open spec fn view(&self) -> AppUsageModel {
        AppUsageModel {
            name: self.name@,
            path: self.path@,
            total_duration_ms: self.total_duration_ms,
            durations: self.durations@,
        }
    }
}

pub open spec fn usages_view(v: Seq<AppUsage>) -> Seq<AppUsageModel> {
    v.map_values(|u: AppUsage| u@)
}

/// The replay cursor and the entries accumulated so far.
pub ghost struct ReplayState {
    pub current: Option<Seq<u8>>,
    pub usages: Seq<AppUsageModel>,
}

/// First index at or after `i` whose entry carries `name`; `usages.len()`
/// if there is none.
pub open spec fn spec_find_from(usages: Seq<AppUsageModel>, name: Seq<u8>, i: int) -> int
    decreases usages.len() - i,
{
    if i < 0 || i >= usages.len() {
        usages.len() as int
    } else if usages[i].name == name {
        i
    } else {
        spec_find_from(usages, name, i + 1)
    }
}

pub open spec fn spec_find(usages: Seq<AppUsageModel>, name: Seq<u8>) -> int {
    spec_find_from(usages, name, 0)
}

pub proof fn lemma_spec_find_from(usages: Seq<AppUsageModel>, name: Seq<u8>, i: int)
    requires
        0 <= i <= usages.len(),
    ensures
        i <= spec_find_from(usages, name, i) <= usages.len(),
        spec_find_from(usages, name, i) < usages.len() ==> usages[spec_find_from(
            usages,
            name,
            i,
        )].name == name,
        forall|k: int| i <= k < spec_find_from(usages, name, i) ==> usages[k].name != name,
    decreases usages.len() - i,
{
    if i < usages.len() && usages[i].name != name {
        lemma_spec_find_from(usages, name, i + 1);
    }
}

/// Closes the most recent interval of the entry named `name` at `ts`; no
/// change when no entry carries that name.
pub open spec fn spec_close_last(
    usages: Seq<AppUsageModel>,
    name: Seq<u8>,
    ts: u64,
) -> Seq<AppUsageModel> {
    let i = spec_find(usages, name);
    if i < usages.len() && usages[i].durations.len() > 0 {
        let u = usages[i];
        let last = u.durations.last();
        usages.update(
            i,
            AppUsageModel {
                name: u.name,
                path: u.path,
                total_duration_ms: u.total_duration_ms,
                durations: u.durations.update(u.durations.len() - 1, (last.0, ts)),
            },
        )
    } else {
        usages
    }
}

/// One event against the replay state.
///
/// An event outside `[start, end]` changes nothing. A front-change first
/// closes the interval of the previously fronted application when that is
/// a different one, then opens a zero-length interval for the new name,
/// creating its entry on first sight, and makes the event's path the
/// entry's representative path. A shutdown or stop closes the interval of
/// whatever was in front and clears the cursor.
pub open spec fn spec_step(st: ReplayState, e: EventModel, start: u64, end: u64) -> ReplayState {
    if e.timestamp < start || e.timestamp > end {
        st
    } else if e.kind == EventType::CameToFront {
        let name = spec_display_name(e.path);
        let closed = match st.current {
            Some(prev) => if prev != name {
                spec_close_last(st.usages, prev, e.timestamp)
            } else {
                st.usages
            },
            None => st.usages,
        };
        let i = spec_find(closed, name);
        let usages2 = if i < closed.len() {
            let u = closed[i];
            closed.update(
                i,
                AppUsageModel {
                    name: u.name,
                    path: e.path,
                    total_duration_ms: u.total_duration_ms,
                    durations: u.durations.push((e.timestamp, e.timestamp)),
                },
            )
        } else {
            closed.push(
                AppUsageModel {
                    name: name,
                    path: e.path,
                    total_duration_ms: 0,
                    durations: seq![(e.timestamp, e.timestamp)],
                },
            )
        };
        ReplayState { current: Some(name), usages: usages2 }
    } else {
        let usages2 = match st.current {
            Some(prev) => spec_close_last(st.usages, prev, e.timestamp),
            None => st.usages,
        };
        ReplayState { current: None, usages: usages2 }
    }
}

/// The state after replaying `events` in order from the empty state.
pub open spec fn spec_replay(events: Seq<EventModel>, start: u64, end: u64) -> ReplayState
    decreases events.len(),
{
    if events.len() == 0 {
        ReplayState { current: None, usages: Seq::empty() }
    } else {
        spec_step(spec_replay(events.drop_last(), start, end), events.last(), start, end)
    }
}

/// The events a list of log lines yields, in order; lines that do not
/// parse contribute nothing.
pub open spec fn spec_events_of_lines(lines: Seq<Seq<u8>>) -> Seq<EventModel>
    decreases lines.len(),
{
    if lines.len() == 0 {
        Seq::empty()
    } else {
        let rest = spec_events_of_lines(lines.drop_last());
        match spec_parse_line(lines.last()) {
            Some(e) => rest.push(e),
            None => rest,
        }
    }
}

/// Length of one interval; an interval whose end lies before its start
/// counts as zero.
pub open spec fn interval_len(iv: (u64, u64)) -> u64 {
    if iv.0 <= iv.1 {
        (iv.1 - iv.0) as u64
    } else {
        0
    }
}

pub open spec fn sat_add(a: u64, b: u64) -> u64 {
    if a + b <= u64::MAX {
        (a + b) as u64
    } else {
        u64::MAX
    }
}

/// Saturating sum of the interval lengths.
pub open spec fn spec_total(durations: Seq<(u64, u64)>) -> u64
    decreases durations.len(),
{
    if durations.len() == 0 {
        0
    } else {
        sat_add(spec_total(durations.drop_last()), interval_len(durations.last()))
    }
}

/// Fills every entry's total from its intervals.
pub open spec fn spec_finalize(usages: Seq<AppUsageModel>) -> Seq<AppUsageModel> {
    usages.map_values(
        |u: AppUsageModel|
            AppUsageModel {
                name: u.name,
                path: u.path,
                total_duration_ms: spec_total(u.durations),
                durations: u.durations,
            },
    )
}

/// Finds the first matching entry, scanning from the front.
fn find_usage(usages: &Vec<AppUsage>, name: &Vec<u8>) -> (r: usize)
    ensures
        r == spec_find(usages_view(usages@), name@),
{
    let mut j: usize = 0;
    while j < usages.len()
        invariant
            0 <= j <= usages@.len(),
            spec_find_from(usages_view(usages@), name@, 0) == spec_find_from(
                usages_view(usages@),
                name@,
                j as int,
            ),
        decreases usages@.len() - j,
    {
        if vec_u8_eq(&usages[j].name, name) {
            proof {
                assert(usages_view(usages@)[j as int].name == name@);
            }
            return j;
        }
        proof {
            assert(usages_view(usages@)[j as int].name != name@);
        }
        j = j + 1;
    }
    j
}

/// Closes the most recent interval of the entry named `name` at `ts`.
fn close_last(usages: &mut Vec<AppUsage>, name: &Vec<u8>, ts: u64)
    ensures
        usages_view(final(usages)@) == spec_close_last(usages_view(old(usages)@), name@, ts),
{
    let ghost uv = usages_view(usages@);
    let i = find_usage(usages, name);
    proof {
        lemma_spec_find_from(uv, name@, 0);
    }
    if i < usages.len() {
        let mut u = usages.remove(i);
        if u.durations.len() > 0 {
            let n = u.durations.len() - 1;
            let last = u.durations[n];
            u.durations.set(n, (last.0, ts));
        }
        usages.insert(i, u);
        proof {
            assert(usages_view(usages@) =~= spec_close_last(uv, name@, ts));
        }
    } else {
        proof {
            assert(usages_view(usages@) =~= spec_close_last(uv, name@, ts));
        }
    }
}

/// Applies one event to the replay cursor and the accumulated entries.
fn apply_event(
    current: Option<Vec<u8>>,
    usages: &mut Vec<AppUsage>,
    ev: Event,
    start: u64,
    end: u64,
) -> (newcur: Option<Vec<u8>>)
    ensures
        opt_bytes_view(newcur) == spec_step(
            ReplayState { current: opt_bytes_view(current), usages: usages_view(old(usages)@) },
            ev@,
            start,
            end,
        ).current,
        usages_view(final(usages)@) == spec_step(
            ReplayState { current: opt_bytes_view(current), usages: usages_view(old(usages)@) },
            ev@,
            start,
            end,
        ).usages,
{
    let ghost st0 = ReplayState {
        current: opt_bytes_view(current),
        usages: usages_view(usages@),
    };
    if ev.timestamp < start || ev.timestamp > end {
        return current;
    }
    match ev.kind {
        EventType::CameToFront => {
            let name = display_name_from_path(&ev.path);
            match &current {
                Some(prev) => {
                    if !vec_u8_eq(prev, &name) {
                        close_last(usages, prev, ev.timestamp);
                    }
                },
                None => {},
            }
            let ghost closed = usages_view(usages@);
            let i = find_usage(usages, &name);
            proof {
                lemma_spec_find_from(closed, name@, 0);
            }
            if i < usages.len() {
                let mut u = usages.remove(i);
                u.path = ev.path;
                u.durations.push((ev.timestamp, ev.timestamp));
                usages.insert(i, u);
                proof {
                    assert(usages_view(usages@) =~= spec_step(st0, ev@, start, end).usages);
                }
            } else {
                let name2 = copy_range(&name, 0, name.len());
                proof {
                    assert(name2@ =~= name@);
                }
                let mut ds: Vec<(u64, u64)> = Vec::new();
                ds.push((ev.timestamp, ev.timestamp));
                proof {
                    assert(ds@ =~= seq![(ev.timestamp, ev.timestamp)]);
                }
                usages.push(
                    AppUsage { name: name2, path: ev.path, total_duration_ms: 0, durations: ds },
                );
                proof {
                    assert(usages_view(usages@) =~= spec_step(st0, ev@, start, end).usages);
                }
            }
            Some(name)
        },
        EventType::ShutDown => {
            match &current {
                Some(prev) => {
                    close_last(usages, prev, ev.timestamp);
                },
                None => {},
            }
            None
        },
        EventType::StopMonitoring => {
            match &current {
                Some(prev) => {
                    close_last(usages, prev, ev.timestamp);
                },
                None => {},
            }
            None
        },
    }
}

/// Descending order by total time in front.
pub open spec fn sorted_desc(s: Seq<AppUsageModel>) -> bool {
    forall|i: int, j: int|
        0 <= i <= j < s.len() ==> s[i].total_duration_ms >= s[j].total_duration_ms
}

/// Places `u` behind every entry whose total is at least as large: a
/// stable descending insertion.
pub open spec fn spec_insert_desc(u: AppUsageModel, s: Seq<AppUsageModel>) -> Seq<AppUsageModel>
    decreases s.len(),
{
    if s.len() == 0 {
        seq![u]
    } else if s[0].total_duration_ms >= u.total_duration_ms {
        seq![s[0]] + spec_insert_desc(u, s.drop_first())
    } else {
        seq![u] + s
    }
}

/// Stable insertion sort, descending by total; entries with equal totals
/// keep their discovery order.
pub open spec fn spec_sort_desc(s: Seq<AppUsageModel>) -> Seq<AppUsageModel>
    decreases s.len(),
{
    if s.len() == 0 {
        Seq::empty()
    } else {
        spec_insert_desc(s.last(), spec_sort_desc(s.drop_last()))
    }
}

/// The full result of one query over a list of events.
pub open spec fn spec_report(events: Seq<EventModel>, start: u64, end: u64) -> Seq<AppUsageModel> {
    spec_sort_desc(spec_finalize(spec_replay(events, start, end).usages))
}

/// The full result of one query over raw log lines.
pub open spec fn spec_report_of_lines(lines: Seq<Seq<u8>>, start: u64, end: u64) -> Seq<
    AppUsageModel,
> {
    spec_report(spec_events_of_lines(lines), start, end)
}

/// Where the insertion lands: before the first entry with a strictly
/// smaller total, behind everything else.
pub proof fn lemma_insert_desc_at(u: AppUsageModel, s: Seq<AppUsageModel>, k: int)
    requires
        0 <= k <= s.len(),
        forall|m: int| 0 <= m < k ==> s[m].total_duration_ms >= u.total_duration_ms,
        k < s.len() ==> s[k].total_duration_ms < u.total_duration_ms,
    ensures
        spec_insert_desc(u, s) == s.take(k) + seq![u] + s.skip(k),
    decreases k,
{
    if k == 0 {
        if s.len() == 0 {
            assert(spec_insert_desc(u, s) =~= s.take(0) + seq![u] + s.skip(0));
        } else {
            assert(spec_insert_desc(u, s) =~= s.take(0) + seq![u] + s.skip(0));
        }
    } else {
        let d = s.drop_first();
        assert(forall|m: int| 0 <= m < k - 1 ==> d[m].total_duration_ms
            >= u.total_duration_ms);
        lemma_insert_desc_at(u, d, k - 1);
        assert(spec_insert_desc(u, s) == seq![s[0]] + (d.take(k - 1) + seq![u] + d.skip(k
            - 1)));
        assert(seq![s[0]] + (d.take(k - 1) + seq![u] + d.skip(k - 1)) =~= s.take(k) + seq![u]
            + s.skip(k));
    }
}

/// Insertion keeps length, adds only `u`, and preserves descending order.
pub proof fn lemma_insert_desc_props(u: AppUsageModel, s: Seq<AppUsageModel>)
    ensures
        spec_insert_desc(u, s).len() == s.len() + 1,
        forall|i: int|
            0 <= i < spec_insert_desc(u, s).len() ==> (#[trigger] spec_insert_desc(u, s)[i] == u
                || s.contains(spec_insert_desc(u, s)[i])),
        sorted_desc(s) ==> sorted_desc(spec_insert_desc(u, s)),
    decreases s.len(),
{
    let r = spec_insert_desc(u, s);
    if s.len() == 0 {
        assert(r =~= seq![u]);
    } else if s[0].total_duration_ms >= u.total_duration_ms {
        let d = s.drop_first();
        lemma_insert_desc_props(u, d);
        let rec = spec_insert_desc(u, d);
        assert(r =~= seq![s[0]] + rec);
        assert(s.contains(s[0])) by {
            assert(s[0] == s[0]);
        }
        assert(forall|i: int| 0 <= i < r.len() ==> (#[trigger] r[i] == u || s.contains(r[i])))
            by {
            assert(forall|i: int|
                0 <= i < r.len() ==> {
                    if i == 0 {
                        s.contains(#[trigger] r[i])
                    } else {
                        r[i] == rec[i - 1]
                    }
                });
            assert forall|i: int| 1 <= i < r.len() && rec[i - 1] != u implies s.contains(
                r[i],
            ) by {
                assert(d.contains(rec[i - 1]));
                let m = choose|m: int| 0 <= m < d.len() && d[m] == rec[i - 1];
                assert(s[m + 1] == d[m]);
                assert(s.contains(rec[i - 1]));
            }
        }
        if sorted_desc(s) {
            assert(sorted_desc(d));
            assert forall|i: int, j: int| 0 <= i <= j < r.len() implies r[i].total_duration_ms
                >= r[j].total_duration_ms by {
                if i == 0 && j > 0 {
                    if rec[j - 1] == u {
                        assert(r[0].total_duration_ms >= u.total_duration_ms);
                    } else {
                        assert(d.contains(rec[j - 1]));
                        let m = choose|m: int| 0 <= m < d.len() && d[m] == rec[j - 1];
                        assert(s[m + 1] == d[m]);
                        assert(s[0].total_duration_ms >= s[m + 1].total_duration_ms);
                    }
                }
            }
        }
    } else {
        assert(r =~= seq![u] + s);
        assert forall|i: int| 1 <= i < r.len() implies s.contains(r[i]) by {
            assert(r[i] == s[i - 1]);
        }
    }
}

/// Sorting keeps length, keeps the entries, and yields descending order.
pub proof fn lemma_sort_desc_props(s: Seq<AppUsageModel>)
    ensures
        spec_sort_desc(s).len() == s.len(),
        forall|i: int|
            0 <= i < spec_sort_desc(s).len() ==> s.contains(#[trigger] spec_sort_desc(s)[i]),
        sorted_desc(spec_sort_desc(s)),
    decreases s.len(),
{
    if s.len() > 0 {
        let d = s.drop_last();
        lemma_sort_desc_props(d);
        lemma_insert_desc_props(s.last(), spec_sort_desc(d));
        let r = spec_sort_desc(s);
        assert(s.contains(s.last())) by {
            assert(s[s.len() - 1] == s.last());
        }
        assert forall|i: int| 0 <= i < r.len() implies s.contains(r[i]) by {
            if r[i] == s.last() {
            } else {
                assert(spec_sort_desc(d).contains(r[i]));
                assert(d.contains(r[i]));
                let m = choose|m: int| 0 <= m < d.len() && d[m] == r[i];
                assert(s[m] == d[m]);
            }
        }
    }
}

/// Inserts `u` behind every entry whose total is at least as large.
fn insert_sorted(sorted: &mut Vec<AppUsage>, u: AppUsage)
    ensures
        usages_view(final(sorted)@) == spec_insert_desc(u@, usages_view(old(sorted)@)),
{
    let ghost sv = usages_view(sorted@);
    let mut k: usize = 0;
    while k < sorted.len() && sorted[k].total_duration_ms >= u.total_duration_ms
        invariant
            0 <= k <= sorted@.len(),
            sv == usages_view(sorted@),
            forall|m: int| 0 <= m < k ==> sv[m].total_duration_ms >= u@.total_duration_ms,
        decreases sorted@.len() - k,
    {
        k = k + 1;
    }
    proof {
        lemma_insert_desc_at(u@, sv, k as int);
    }
    sorted.insert(k, u);
    proof {
        assert(usages_view(sorted@) =~= sv.take(k as int) + seq![u@] + sv.skip(k as int));
    }
}

/// Replays `lines` in order over the window `[start_timestamp,
/// end_timestamp]` and returns one entry per application name seen, each
/// carrying its discovered intervals and their summed length, ordered by
/// total time in front, largest first; entries with equal totals keep the
/// order in which they were first seen. Lines that do not parse are
/// skipped; events outside the window change nothing.
pub fn aggregate_app_usages(lines: &Vec<Vec<u8>>, start_timestamp: u64, end_timestamp: u64) -> (r:
    Vec<AppUsage>)
    ensures
        usages_view(r@) == spec_report_of_lines(views_of(lines@), start_timestamp, end_timestamp),
        sorted_desc(usages_view(r@)),
        forall|i: int|
            0 <= i < r@.len() ==> #[trigger] r@[i].total_duration_ms == spec_total(
                r@[i].durations@,
            ),
{
    let ghost lv = views_of(lines@);
    let mut current: Option<Vec<u8>> = None;
    let mut usages: Vec<AppUsage> = Vec::new();
    let mut i: usize = 0;
    proof {
        assert(lv.take(0) =~= Seq::<Seq<u8>>::empty());
        assert(usages_view(usages@) =~= Seq::<AppUsageModel>::empty());
    }
    while i < lines.len()
        invariant
            0 <= i <= lines@.len(),
            lv == views_of(lines@),
            opt_bytes_view(current) == spec_replay(
                spec_events_of_lines(lv.take(i as int)),
                start_timestamp,
                end_timestamp,
            ).current,
            usages_view(usages@) == spec_replay(
                spec_events_of_lines(lv.take(i as int)),
                start_timestamp,
                end_timestamp,
            ).usages,
        decreases lines@.len() - i,
    {
        let ghost events = spec_events_of_lines(lv.take(i as int));
        proof {
            assert(lv.take(i + 1).drop_last() =~= lv.take(i as int));
            assert(lv.take(i + 1).last() == lines@[i as int]@);
        }
        match parse_line(&lines[i]) {
            Some(ev) => {
                proof {
                    assert(spec_events_of_lines(lv.take(i + 1)) == events.push(ev@));
                    assert(events.push(ev@).drop_last() =~= events);
                    assert(events.push(ev@).last() == ev@);
                }
                current = apply_event(current, &mut usages, ev, start_timestamp, end_timestamp);
            },
            None => {
                proof {
                    assert(spec_events_of_lines(lv.take(i + 1)) == events);
                }
            },
        }
        i = i + 1;
    }
    proof {
        assert(lv.take(lines@.len() as int) =~= lv);
    }
    let ghost replayed = usages_view(usages@);
    let mut j: usize = 0;
    while j < usages.len()
        invariant
            0 <= j <= usages@.len(),
            usages@.len() == replayed.len(),
            forall|m: int| j <= m < replayed.len() ==> usages@[m]@ == replayed[m],
            forall|m: int| 0 <= m < j ==> usages@[m]@ == spec_finalize(replayed)[m],
        decreases usages@.len() - j,
    {
        let mut u = usages.remove(j);
        let ghost ds = u.durations@;
        let mut tot: u64 = 0;
        let mut k: usize = 0;
        proof {
            assert(ds.take(0) =~= Seq::<(u64, u64)>::empty());
        }
        while k < u.durations.len()
            invariant
                0 <= k <= u.durations@.len(),
                ds == u.durations@,
                tot == spec_total(ds.take(k as int)),
            decreases u.durations@.len() - k,
        {
            let d = u.durations[k];
            let step: u64 = if d.0 <= d.1 {
                d.1 - d.0
            } else {
                0
            };
            proof {
                assert(ds.take(k + 1).drop_last() =~= ds.take(k as int));
                assert(ds.take(k + 1).last() == ds[k as int]);
                assert(step == interval_len(ds[k as int]));
            }
            tot = tot.saturating_add(step);
            k = k + 1;
        }
        proof {
            assert(ds.take(ds.len() as int) =~= ds);
        }
        u.total_duration_ms = tot;
        usages.insert(j, u);
        proof {
            assert(usages@[j as int]@ == spec_finalize(replayed)[j as int]);
        }
        j = j + 1;
    }
    let ghost fin = spec_finalize(replayed);
    proof {
        assert(usages_view(usages@) =~= fin);
    }
    let mut sorted: Vec<AppUsage> = Vec::new();
    let mut n: usize = 0;
    proof {
        vstd::std_specs::vec::axiom_spec_len(&usages);
        assert(fin.len() <= usize::MAX);
        assert(fin.take(0) =~= Seq::<AppUsageModel>::empty());
        assert(usages_view(sorted@) =~= spec_sort_desc(fin.take(0)));
        assert(fin.skip(0) =~= fin);
    }
    while usages.len() > 0
        invariant
            0 <= n <= fin.len(),
            fin.len() <= usize::MAX,
            n + usages@.len() == fin.len(),
            usages_view(usages@) == fin.skip(n as int),
            usages_view(sorted@) == spec_sort_desc(fin.take(n as int)),
        decreases usages@.len(),
    {
        let ghost uv0 = usages@;
        let u = usages.remove(0);
        proof {
            assert(u@ == fin.skip(n as int)[0]);
            assert(u@ == fin[n as int]);
            assert(usages@ == uv0.remove(0));
            assert forall|m: int| 0 <= m < usages@.len() implies usages@[m] == uv0[m + 1] by {
                assert(uv0.remove(0)[m] == uv0[m + 1]);
            }
            assert forall|m: int| 0 <= m < usages@.len() implies usages_view(usages@)[m]
                == fin.skip(n + 1)[m] by {
                assert(usages@[m]@ == usages_view(uv0)[m + 1]);
                assert(usages_view(uv0)[m + 1] == fin.skip(n as int)[m + 1]);
            }
            assert(usages_view(usages@) =~= fin.skip(n + 1));
            assert(fin.take(n + 1).drop_last() =~= fin.take(n as int));
            assert(fin.take(n + 1).last() == fin[n as int]);
        }
        insert_sorted(&mut sorted, u);
        proof {
            assert(usages_view(sorted@) == spec_insert_desc(
                fin[n as int],
                spec_sort_desc(fin.take(n as int)),
            ));
            assert(usages_view(sorted@) == spec_sort_desc(fin.take(n + 1)));
        }
        n = n + 1;
    }
    proof {
        assert(fin.take(fin.len() as int) =~= fin);
        assert(usages_view(sorted@) == spec_report_of_lines(lv, start_timestamp, end_timestamp));
        lemma_sort_desc_props(fin);
        assert forall|i2: int| 0 <= i2 < sorted@.len() implies (#[trigger] sorted@[i2].total_duration_ms)
            == spec_total(sorted@[i2].durations@) by {
            assert(usages_view(sorted@)[i2] == sorted@[i2]@);
            assert(fin.contains(usages_view(sorted@)[i2]));
            let m = choose|m: int| 0 <= m < fin.len() && fin[m] == usages_view(sorted@)[i2];
            assert(fin[m].total_duration_ms == spec_total(fin[m].durations));
        }
    }
    sorted
}

/// The events of `events` whose timestamps lie in `[start, end]`, in
/// order.
pub open spec fn spec_window_events(events: Seq<EventModel>, start: u64, end: u64) -> Seq<
    EventModel,
>
    decreases events.len(),
{
    if events.len() == 0 {
        Seq::empty()
    } else {
        let rest = spec_window_events(events.drop_last(), start, end);
        if start <= events.last().timestamp && events.last().timestamp <= end {
            rest.push(events.last())
        } else {
            rest
        }
    }
}

/// Events outside the queried window never appear in the result and never
/// affect it: replaying only the in-window events yields the very same
/// state, and so the very same report.
pub proof fn lemma_out_of_window_events_ignored(events: Seq<EventModel>, start: u64, end: u64)
    ensures
        spec_replay(spec_window_events(events, start, end), start, end) == spec_replay(
            events,
            start,
            end,
        ),
        spec_report(spec_window_events(events, start, end), start, end) == spec_report(
            events,
            start,
            end,
        ),
    decreases events.len(),
{
    if events.len() == 0 {
        assert(spec_window_events(events, start, end) =~= events);
    } else {
        let pre = events.drop_last();
        let e = events.last();
        let w = spec_window_events(events, start, end);
        let wpre = spec_window_events(pre, start, end);
        lemma_out_of_window_events_ignored(pre, start, end);
        if start <= e.timestamp && e.timestamp <= end {
            assert(w == wpre.push(e));
            assert(wpre.push(e).drop_last() =~= wpre);
            assert(wpre.push(e).last() == e);
            assert(spec_replay(w, start, end) == spec_step(
                spec_replay(wpre, start, end),
                e,
                start,
                end,
            ));
        } else {
            assert(w == wpre);
            assert(spec_step(spec_replay(pre, start, end), e, start, end) == spec_replay(
                pre,
                start,
                end,
            ));
        }
    }
}

/// A line that does not parse — a stray `garbage` line, say — contributes
/// nothing, wherever it stands in the log: the replayed events, and so
/// the report, stay as without it.
pub proof fn lemma_malformed_line_ignored(
    lines: Seq<Seq<u8>>,
    i: int,
    bad: Seq<u8>,
    start: u64,
    end: u64,
)
    requires
        0 <= i <= lines.len(),
        spec_parse_line(bad) is None,
    ensures
        spec_events_of_lines(lines.insert(i, bad)) == spec_events_of_lines(lines),
        spec_report_of_lines(lines.insert(i, bad), start, end) == spec_report_of_lines(
            lines,
            start,
            end,
        ),
    decreases lines.len(),
{
    let ins = lines.insert(i, bad);
    if i == lines.len() {
        assert(ins.drop_last() =~= lines);
        assert(ins.last() == bad);
    } else {
        assert(ins.last() == lines.last());
        assert(ins.drop_last() =~= lines.drop_last().insert(i, bad));
        lemma_malformed_line_ignored(lines.drop_last(), i, bad, start, end);
    }
}

/// The report is a function of the lines and the window alone: querying
/// the same range over the same log twice yields identical reports.
pub proof fn lemma_query_deterministic(
    r1: Seq<AppUsageModel>,
    r2: Seq<AppUsageModel>,
    lines: Seq<Seq<u8>>,
    start: u64,
    end: u64,
)
    requires
        r1 == spec_report_of_lines(lines, start, end),
        r2 == spec_report_of_lines(lines, start, end),
    ensures
        r1 == r2,
{
}

/// Do the events stand in timestamp order, as the writer appends them?
pub open spec fn spec_events_ordered(events: Seq<EventModel>) -> bool {
    forall|i: int, j: int|
        0 <= i <= j < events.len() ==> events[i].timestamp <= events[j].timestamp
}

/// Interval bookkeeping that replay maintains on every entry, `t` being
/// an upper bound on the timestamps processed so far: intervals exist,
/// lie within the window and under `t`, run forward, and follow one
/// another without overlap.
pub open spec fn spec_usage_wf(u: AppUsageModel, t: int, start: u64, end: u64) -> bool {
    &&& u.durations.len() > 0
    &&& forall|i: int|
        0 <= i < u.durations.len() ==> {
            let iv = #[trigger] u.durations[i];
            start <= iv.0 && iv.0 <= iv.1 && iv.1 <= end && iv.1 <= t
        }
    &&& forall|i: int|
        0 <= i < u.durations.len() - 1 ==> (#[trigger] u.durations[i]).1 <= u.durations[i
            + 1].0
}

pub open spec fn spec_state_wf(st: ReplayState, t: int, start: u64, end: u64) -> bool {
    forall|k: int| 0 <= k < st.usages.len() ==> spec_usage_wf(#[trigger] st.usages[k], t, start, end)
}

proof fn lemma_usage_wf_mono(u: AppUsageModel, t1: int, t2: int, start: u64, end: u64)
    requires
        spec_usage_wf(u, t1, start, end),
        t1 <= t2,
    ensures
        spec_usage_wf(u, t2, start, end),
{
}

#[verifier::rlimit(50)]
proof fn lemma_close_wf(
    usages: Seq<AppUsageModel>,
    name: Seq<u8>,
    ts: u64,
    t: int,
    start: u64,
    end: u64,
)
    requires
        forall|k: int| 0 <= k < usages.len() ==> spec_usage_wf(#[trigger] usages[k], t, start, end),
        t <= ts,
        start <= ts <= end,
    ensures
        spec_close_last(usages, name, ts).len() == usages.len(),
        forall|k: int|
            0 <= k < usages.len() ==> spec_usage_wf(
                #[trigger] spec_close_last(usages, name, ts)[k],
                ts as int,
                start,
                end,
            ),
{
    let r = spec_close_last(usages, name, ts);
    let i = spec_find(usages, name);
    lemma_spec_find_from(usages, name, 0);
    if i < usages.len() && usages[i].durations.len() > 0 {
        let u = usages[i];
        let n = u.durations.len() - 1;
        let d2 = u.durations.update(n, (u.durations[n].0, ts));
        let u2 = AppUsageModel {
            name: u.name,
            path: u.path,
            total_duration_ms: u.total_duration_ms,
            durations: d2,
        };
        assert(r == usages.update(i, u2));
        assert(spec_usage_wf(u, t, start, end));
        assert forall|m: int| 0 <= m < d2.len() implies {
            let iv = #[trigger] d2[m];
            start <= iv.0 && iv.0 <= iv.1 && iv.1 <= end && iv.1 <= ts
        } by {
            let w0 = u.durations[m];
            assert(start <= w0.0 && w0.0 <= w0.1 && w0.1 <= end && w0.1 <= t);
        }
        assert forall|m: int| 0 <= m < d2.len() - 1 implies (#[trigger] d2[m]).1 <= d2[m
            + 1].0 by {
            assert(u.durations[m].1 <= u.durations[m + 1].0);
        }
        assert(spec_usage_wf(u2, ts as int, start, end));
        assert forall|k: int| 0 <= k < usages.len() implies spec_usage_wf(
            #[trigger] r[k],
            ts as int,
            start,
            end,
        ) by {
            if k == i {
                assert(r[k] == u2);
            } else {
                assert(r[k] == usages[k]);
                lemma_usage_wf_mono(usages[k], t, ts as int, start, end);
            }
        }
    } else {
        assert(r == usages);
        assert forall|k: int| 0 <= k < usages.len() implies spec_usage_wf(
            #[trigger] r[k],
            ts as int,
            start,
            end,
        ) by {
            lemma_usage_wf_mono(usages[k], t, ts as int, start, end);
        }
    }
}

proof fn lemma_step_wf(st: ReplayState, e: EventModel, t: int, start: u64, end: u64)
    requires
        spec_state_wf(st, t, start, end),
        t <= e.timestamp,
    ensures
        spec_state_wf(spec_step(st, e, start, end), e.timestamp as int, start, end),
{
    let ts = e.timestamp;
    let st2 = spec_step(st, e, start, end);
    if ts < start || ts > end {
        assert forall|k: int| 0 <= k < st2.usages.len() implies spec_usage_wf(
            #[trigger] st2.usages[k],
            ts as int,
            start,
            end,
        ) by {
            lemma_usage_wf_mono(st.usages[k], t, ts as int, start, end);
        }
    } else if e.kind == EventType::CameToFront {
        let name = spec_display_name(e.path);
        let closed = match st.current {
            Some(prev) => if prev != name {
                spec_close_last(st.usages, prev, ts)
            } else {
                st.usages
            },
            None => st.usages,
        };
        assert forall|k: int| 0 <= k < closed.len() implies spec_usage_wf(
            #[trigger] closed[k],
            ts as int,
            start,
            end,
        ) by {
            match st.current {
                Some(prev) => {
                    if prev != name {
                        lemma_close_wf(st.usages, prev, ts, t, start, end);
                    } else {
                        lemma_usage_wf_mono(st.usages[k], t, ts as int, start, end);
                    }
                },
                None => {
                    lemma_usage_wf_mono(st.usages[k], t, ts as int, start, end);
                },
            }
        }
        let i = spec_find(closed, name);
        lemma_spec_find_from(closed, name, 0);
        if i < closed.len() {
            let u = closed[i];
            let d2 = u.durations.push((ts, ts));
            assert(spec_usage_wf(u, ts as int, start, end));
            assert forall|m: int| 0 <= m < d2.len() implies {
                let iv = #[trigger] d2[m];
                start <= iv.0 && iv.0 <= iv.1 && iv.1 <= end && iv.1 <= ts
            } by {
                if m < d2.len() - 1 {
                    assert(d2[m] == u.durations[m]);
                }
            }
            assert forall|m: int| 0 <= m < d2.len() - 1 implies (#[trigger] d2[m]).1 <= d2[m
                + 1].0 by {
                assert(d2[m] == u.durations[m]);
                if m < d2.len() - 2 {
                    assert(d2[m + 1] == u.durations[m + 1]);
                } else {
                    assert(u.durations[m].1 <= ts);
                }
            }
            assert forall|k: int| 0 <= k < st2.usages.len() implies spec_usage_wf(
                #[trigger] st2.usages[k],
                ts as int,
                start,
                end,
            ) by {
                if k != i {
                    assert(st2.usages[k] == closed[k]);
                }
            }
        } else {
            assert forall|k: int| 0 <= k < st2.usages.len() implies spec_usage_wf(
                #[trigger] st2.usages[k],
                ts as int,
                start,
                end,
            ) by {
                if k < closed.len() {
                    assert(st2.usages[k] == closed[k]);
                } else {
                    assert(st2.usages[k].durations =~= seq![(ts, ts)]);
                }
            }
        }
    } else {
        match st.current {
            Some(prev) => {
                lemma_close_wf(st.usages, prev, ts, t, start, end);
            },
            None => {
                assert forall|k: int| 0 <= k < st2.usages.len() implies spec_usage_wf(
                    #[trigger] st2.usages[k],
                    ts as int,
                    start,
                    end,
                ) by {
                    lemma_usage_wf_mono(st.usages[k], t, ts as int, start, end);
                }
            },
        }
    }
}

/// An upper bound on the timestamps in `events`.
pub open spec fn spec_max_ts(events: Seq<EventModel>) -> int
    decreases events.len(),
{
    if events.len() == 0 {
        0
    } else {
        let r = spec_max_ts(events.drop_last());
        if events.last().timestamp > r {
            events.last().timestamp as int
        } else {
            r
        }
    }
}

proof fn lemma_max_ts(events: Seq<EventModel>)
    ensures
        spec_max_ts(events) >= 0,
        forall|i: int| 0 <= i < events.len() ==> events[i].timestamp <= spec_max_ts(events),
    decreases events.len(),
{
    if events.len() > 0 {
        lemma_max_ts(events.drop_last());
        assert forall|i: int| 0 <= i < events.len() implies events[i].timestamp <= spec_max_ts(
            events,
        ) by {
            if i < events.len() - 1 {
                assert(events.drop_last()[i] == events[i]);
            }
        }
    }
}

/// Every entry of a replayed state is well formed, for logs whose events
/// stand in timestamp order.
pub proof fn lemma_replay_wf(events: Seq<EventModel>, t: int, start: u64, end: u64)
    requires
        spec_events_ordered(events),
        forall|i: int| 0 <= i < events.len() ==> events[i].timestamp <= t,
        t >= 0,
    ensures
        spec_state_wf(spec_replay(events, start, end), t, start, end),
    decreases events.len(),
{
    if events.len() == 0 {
    } else {
        let pre = events.drop_last();
        let e = events.last();
        assert(spec_events_ordered(pre)) by {
            assert forall|i: int, j: int| 0 <= i <= j < pre.len() implies pre[i].timestamp
                <= pre[j].timestamp by {
                assert(pre[i] == events[i] && pre[j] == events[j]);
            }
        }
        assert forall|i: int| 0 <= i < pre.len() implies pre[i].timestamp <= e.timestamp by {
            assert(pre[i] == events[i]);
            assert(events[i].timestamp <= events[events.len() - 1].timestamp);
        }
        lemma_replay_wf(pre, e.timestamp as int, start, end);
        lemma_step_wf(spec_replay(pre, start, end), e, e.timestamp as int, start, end);
        let st2 = spec_replay(events, start, end);
        assert forall|k: int| 0 <= k < st2.usages.len() implies spec_usage_wf(
            #[trigger] st2.usages[k],
            t,
            start,
            end,
        ) by {
            lemma_usage_wf_mono(st2.usages[k], e.timestamp as int, t, start, end);
        }
    }
}

/// Exact sum of the interval lengths, over the integers.
pub open spec fn spec_total_int(durations: Seq<(u64, u64)>) -> int
    decreases durations.len(),
{
    if durations.len() == 0 {
        0
    } else {
        spec_total_int(durations.drop_last()) + (durations.last().1 - durations.last().0)
    }
}

/// For intervals that run forward and follow one another, the saturating
/// sum is the exact sum, and it telescopes to at most the whole span.
pub proof fn lemma_chained_total(d: Seq<(u64, u64)>)
    requires
        d.len() > 0,
        forall|i: int| 0 <= i < d.len() ==> (#[trigger] d[i]).0 <= d[i].1,
        forall|i: int| 0 <= i < d.len() - 1 ==> (#[trigger] d[i]).1 <= d[i + 1].0,
    ensures
        0 <= spec_total_int(d) <= d.last().1 - d[0].0,
        spec_total(d) == spec_total_int(d),
    decreases d.len(),
{
    if d.len() == 1 {
        assert(d.drop_last() =~= Seq::<(u64, u64)>::empty());
        assert(spec_total_int(Seq::<(u64, u64)>::empty()) == 0);
        assert(spec_total(Seq::<(u64, u64)>::empty()) == 0);
        assert(spec_total_int(d) == d.last().1 - d.last().0);
        assert(interval_len(d.last()) == d.last().1 - d.last().0);
    } else {
        let pre = d.drop_last();
        assert forall|i: int| 0 <= i < pre.len() implies (#[trigger] pre[i]).0 <= pre[i].1 by {
            assert(pre[i] == d[i]);
        }
        assert forall|i: int| 0 <= i < pre.len() - 1 implies (#[trigger] pre[i]).1 <= pre[i
            + 1].0 by {
            assert(pre[i] == d[i] && pre[i + 1] == d[i + 1]);
        }
        lemma_chained_total(pre);
        assert(pre.last() == d[d.len() - 2]);
        assert(pre[0] == d[0]);
        assert(d[d.len() - 2].1 <= d[d.len() - 1].0);
        assert(spec_total_int(d) == spec_total_int(pre) + (d.last().1 - d.last().0));
        assert(spec_total_int(d) <= d.last().1 - d[0].0);
        assert(interval_len(d.last()) == d.last().1 - d.last().0);
        assert(spec_total(d) == sat_add(spec_total(pre), interval_len(d.last())));
        assert(spec_total(pre) + interval_len(d.last()) <= u64::MAX);
    }
}

/// Pinpoints `spec_find`: if nothing before `j` carries `name`, and `j`
/// is either the end or an entry carrying `name`, the search ends at `j`.
proof fn lemma_spec_find_from_eq(usages: Seq<AppUsageModel>, name: Seq<u8>, i: int, j: int)
    requires
        0 <= i <= j <= usages.len(),
        forall|k: int| i <= k < j ==> usages[k].name != name,
        j < usages.len() ==> usages[j].name == name,
    ensures
        spec_find_from(usages, name, i) == j,
    decreases j - i,
{
    if i < j {
        lemma_spec_find_from_eq(usages, name, i + 1, j);
    }
}

/// Of any two distinct recorded intervals — of two applications or of
/// one — one ends no later than the other begins: no instant lies inside
/// two intervals.
pub open spec fn spec_ivs_ordered(usages: Seq<AppUsageModel>) -> bool {
    forall|k1: int, i1: int, k2: int, i2: int|
        0 <= k1 < usages.len() && 0 <= i1 < usages[k1].durations.len() && 0 <= k2 < usages.len()
            && 0 <= i2 < usages[k2].durations.len() && !(k1 == k2 && i1 == i2) ==> ((
        #[trigger] usages[k1].durations[i1]).1 <= (#[trigger] usages[k2].durations[i2]).0
            || usages[k2].durations[i2].1 <= usages[k1].durations[i1].0)
}

/// Every interval in the state ended by `b`.
pub open spec fn spec_ends_at_most(usages: Seq<AppUsageModel>, b: int) -> bool {
    forall|k: int, i: int|
        0 <= k < usages.len() && 0 <= i < usages[k].durations.len() ==> (
        #[trigger] usages[k].durations[i]).1 <= b
}

/// While an application is in front, its entry's newest interval is the
/// one still open — zero length, awaiting its close — and every other
/// interval in the state ended by the time it opened.
pub open spec fn spec_open_dominates(st: ReplayState) -> bool {
    match st.current {
        Some(n) => {
            let k = spec_find(st.usages, n);
            &&& 0 <= k < st.usages.len()
            &&& st.usages[k].durations.len() > 0
            &&& st.usages[k].durations.last().0 == st.usages[k].durations.last().1
            &&& forall|k2: int, i2: int|
                0 <= k2 < st.usages.len() && 0 <= i2 < st.usages[k2].durations.len() && !(k2 == k
                    && i2 == st.usages[k].durations.len() - 1) ==> (
                #[trigger] st.usages[k2].durations[i2]).1 <= st.usages[k].durations.last().0
        },
        None => true,
    }
}

/// Entry `k` with the end of its newest interval moved to `ts`.
pub open spec fn spec_closed_at(usages: Seq<AppUsageModel>, k: int, ts: u64) -> Seq<
    AppUsageModel,
> {
    let u = usages[k];
    usages.update(
        k,
        AppUsageModel {
            name: u.name,
            path: u.path,
            total_duration_ms: u.total_duration_ms,
            durations: u.durations.update(u.durations.len() - 1, (u.durations.last().0, ts)),
        },
    )
}

/// Entry `k` with a fresh zero-length interval opened at `ts` and the
/// representative path moved to `path`.
pub open spec fn spec_opened_at(usages: Seq<AppUsageModel>, k: int, ts: u64, path: Seq<u8>) -> Seq<
    AppUsageModel,
> {
    let u = usages[k];
    usages.update(
        k,
        AppUsageModel {
            name: u.name,
            path: path,
            total_duration_ms: u.total_duration_ms,
            durations: u.durations.push((ts, ts)),
        },
    )
}

#[verifier::spinoff_prover]
proof fn lemma_ordered_close(usages: Seq<AppUsageModel>, k: int, ts: u64)
    requires
        0 <= k < usages.len(),
        usages[k].durations.len() > 0,
        spec_ivs_ordered(usages),
        forall|k2: int, i2: int|
            0 <= k2 < usages.len() && 0 <= i2 < usages[k2].durations.len() && !(k2 == k && i2
                == usages[k].durations.len() - 1) ==> (#[trigger] usages[k2].durations[i2]).1
                <= usages[k].durations.last().0,
    ensures
        spec_ivs_ordered(spec_closed_at(usages, k, ts)),
{
    let r = spec_closed_at(usages, k, ts);
    let n = usages[k].durations.len() - 1;
    let s = usages[k].durations.last().0;
    assert forall|k1: int, i1: int, k2: int, i2: int|
        0 <= k1 < r.len() && 0 <= i1 < r[k1].durations.len() && 0 <= k2 < r.len() && 0 <= i2
            < r[k2].durations.len() && !(k1 == k2 && i1 == i2) implies ((
    #[trigger] r[k1].durations[i1]).1 <= (#[trigger] r[k2].durations[i2]).0
        || r[k2].durations[i2].1 <= r[k1].durations[i1].0) by {
        if !(k1 == k && i1 == n) && !(k2 == k && i2 == n) {
            assert(r[k1].durations[i1] == usages[k1].durations[i1]);
            assert(r[k2].durations[i2] == usages[k2].durations[i2]);
        } else if k1 == k && i1 == n {
            assert(r[k1].durations[i1] == (s, ts));
            assert(r[k2].durations[i2] == usages[k2].durations[i2]);
            assert(usages[k2].durations[i2].1 <= s);
        } else {
            assert(r[k2].durations[i2] == (s, ts));
            assert(r[k1].durations[i1] == usages[k1].durations[i1]);
            assert(usages[k1].durations[i1].1 <= s);
        }
    }
}

#[verifier::spinoff_prover]
proof fn lemma_ordered_open(usages: Seq<AppUsageModel>, k: int, ts: u64, path: Seq<u8>)
    requires
        0 <= k < usages.len(),
        spec_ivs_ordered(usages),
        spec_ends_at_most(usages, ts as int),
    ensures
        spec_ivs_ordered(spec_opened_at(usages, k, ts, path)),
{
    let r = spec_opened_at(usages, k, ts, path);
    let m = usages[k].durations.len() as int;
    assert forall|k1: int, i1: int, k2: int, i2: int|
        0 <= k1 < r.len() && 0 <= i1 < r[k1].durations.len() && 0 <= k2 < r.len() && 0 <= i2
            < r[k2].durations.len() && !(k1 == k2 && i1 == i2) implies ((
    #[trigger] r[k1].durations[i1]).1 <= (#[trigger] r[k2].durations[i2]).0
        || r[k2].durations[i2].1 <= r[k1].durations[i1].0) by {
        if !(k1 == k && i1 == m) && !(k2 == k && i2 == m) {
            assert(r[k1].durations[i1] == usages[k1].durations[i1]);
            assert(r[k2].durations[i2] == usages[k2].durations[i2]);
        } else if k1 == k && i1 == m {
            assert(r[k1].durations[i1] == (ts, ts));
            assert(r[k2].durations[i2] == usages[k2].durations[i2]);
        } else {
            assert(r[k2].durations[i2] == (ts, ts));
            assert(r[k1].durations[i1] == usages[k1].durations[i1]);
        }
    }
}

#[verifier::spinoff_prover]
proof fn lemma_ordered_new_entry(usages: Seq<AppUsageModel>, u2: AppUsageModel, ts: u64)
    requires
        spec_ivs_ordered(usages),
        spec_ends_at_most(usages, ts as int),
        u2.durations == seq![(ts, ts)],
    ensures
        spec_ivs_ordered(usages.push(u2)),
{
    let r = usages.push(u2);
    assert forall|k1: int, i1: int, k2: int, i2: int|
        0 <= k1 < r.len() && 0 <= i1 < r[k1].durations.len() && 0 <= k2 < r.len() && 0 <= i2
            < r[k2].durations.len() && !(k1 == k2 && i1 == i2) implies ((
    #[trigger] r[k1].durations[i1]).1 <= (#[trigger] r[k2].durations[i2]).0
        || r[k2].durations[i2].1 <= r[k1].durations[i1].0) by {
        if k1 < usages.len() && k2 < usages.len() {
            assert(r[k1].durations[i1] == usages[k1].durations[i1]);
            assert(r[k2].durations[i2] == usages[k2].durations[i2]);
        } else if k1 == usages.len() {
            assert(r[k1].durations[i1] == (ts, ts));
            assert(r[k2].durations[i2] == usages[k2].durations[i2]);
        } else {
            assert(r[k2].durations[i2] == (ts, ts));
            assert(r[k1].durations[i1] == usages[k1].durations[i1]);
        }
    }
}

#[verifier::spinoff_prover]
proof fn lemma_ends_from_wf(usages: Seq<AppUsageModel>, t: int, start: u64, end: u64)
    requires
        forall|k: int| 0 <= k < usages.len() ==> spec_usage_wf(#[trigger] usages[k], t, start, end),
    ensures
        spec_ends_at_most(usages, t),
{
    assert forall|k: int, i: int|
        0 <= k < usages.len() && 0 <= i < usages[k].durations.len() implies (
    #[trigger] usages[k].durations[i]).1 <= t by {
        assert(spec_usage_wf(usages[k], t, start, end));
    }
}

/// Closing the open interval keeps all intervals pairwise ordered.
#[verifier::spinoff_prover]
proof fn lemma_close_sep(usages: Seq<AppUsageModel>, prev: Seq<u8>, ts: u64)
    requires
        spec_ivs_ordered(usages),
        spec_open_dominates(ReplayState { current: Some(prev), usages: usages }),
    ensures
        spec_ivs_ordered(spec_close_last(usages, prev, ts)),
        spec_close_last(usages, prev, ts).len() == usages.len(),
        forall|k: int|
            0 <= k < usages.len() ==> (#[trigger] spec_close_last(usages, prev, ts)[k]).name
                == usages[k].name,
{
    let k = spec_find(usages, prev);
    assert(spec_close_last(usages, prev, ts) == spec_closed_at(usages, k, ts));
    lemma_ordered_close(usages, k, ts);
}

/// One event keeps the global interval ordering and the open-interval
/// dominance.
#[verifier::spinoff_prover]
#[verifier::rlimit(100)]
proof fn lemma_step_sep(st: ReplayState, e: EventModel, t: int, start: u64, end: u64)
    requires
        spec_state_wf(st, t, start, end),
        spec_ivs_ordered(st.usages),
        spec_open_dominates(st),
        t <= e.timestamp,
    ensures
        spec_ivs_ordered(spec_step(st, e, start, end).usages),
        spec_open_dominates(spec_step(st, e, start, end)),
{
    let ts = e.timestamp;
    let st2 = spec_step(st, e, start, end);
    if ts < start || ts > end {
    } else if e.kind == EventType::CameToFront {
        let name = spec_display_name(e.path);
        let closed = match st.current {
            Some(prev) => if prev != name {
                spec_close_last(st.usages, prev, ts)
            } else {
                st.usages
            },
            None => st.usages,
        };
        match st.current {
            Some(prev) => {
                if prev != name {
                    lemma_close_sep(st.usages, prev, ts);
                    lemma_close_wf(st.usages, prev, ts, t, start, end);
                    lemma_ends_from_wf(closed, ts as int, start, end);
                } else {
                    lemma_ends_from_wf(closed, t, start, end);
                }
            },
            None => {
                lemma_ends_from_wf(closed, t, start, end);
            },
        }
        assert(spec_ivs_ordered(closed));
        assert(spec_ends_at_most(closed, ts as int)) by {
            assert forall|k2: int, i2: int|
                0 <= k2 < closed.len() && 0 <= i2 < closed[k2].durations.len() implies (
            #[trigger] closed[k2].durations[i2]).1 <= ts by {
                assert(closed[k2].durations[i2].1 <= t || closed[k2].durations[i2].1 <= ts);
            }
        }
        let i = spec_find(closed, name);
        lemma_spec_find_from(closed, name, 0);
        if i < closed.len() {
            assert(st2.usages == spec_opened_at(closed, i, ts, e.path));
            lemma_ordered_open(closed, i, ts, e.path);
            assert(spec_find(st2.usages, name) == i) by {
                assert(forall|k: int|
                    0 <= k < i ==> (#[trigger] st2.usages[k]).name == closed[k].name);
                assert(st2.usages[i].name == name);
                lemma_spec_find_from_eq(st2.usages, name, 0, i);
            }
            assert(st2.usages[i].durations.last() == (ts, ts));
            assert forall|k2: int, i2: int|
                0 <= k2 < st2.usages.len() && 0 <= i2 < st2.usages[k2].durations.len() && !(k2 == i
                    && i2 == st2.usages[i].durations.len() - 1) implies (
            #[trigger] st2.usages[k2].durations[i2]).1 <= st2.usages[i].durations.last().0 by {
                assert(st2.usages[k2].durations[i2] == closed[k2].durations[i2]);
            }
        } else {
            let u2 = AppUsageModel {
                name: name,
                path: e.path,
                total_duration_ms: 0,
                durations: seq![(ts, ts)],
            };
            assert(st2.usages == closed.push(u2));
            lemma_ordered_new_entry(closed, u2, ts);
            assert(spec_find(st2.usages, name) == closed.len()) by {
                assert(forall|k: int|
                    0 <= k < closed.len() ==> (#[trigger] st2.usages[k]).name == closed[k].name);
                assert(st2.usages[closed.len() as int].name == name);
                lemma_spec_find_from_eq(st2.usages, name, 0, closed.len() as int);
            }
            assert(st2.usages[closed.len() as int].durations.last() == (ts, ts));
            assert forall|k2: int, i2: int|
                0 <= k2 < st2.usages.len() && 0 <= i2 < st2.usages[k2].durations.len() && !(k2
                    == closed.len() && i2 == 0) implies (
            #[trigger] st2.usages[k2].durations[i2]).1 <= ts by {
                assert(st2.usages[k2].durations[i2] == closed[k2].durations[i2]);
            }
        }
    } else {
        match st.current {
            Some(prev) => {
                lemma_close_sep(st.usages, prev, ts);
            },
            None => {},
        }
    }
}

/// Replaying an ordered log keeps every pair of intervals ordered.
proof fn lemma_replay_sep(events: Seq<EventModel>, t: int, start: u64, end: u64)
    requires
        spec_events_ordered(events),
        forall|i: int| 0 <= i < events.len() ==> events[i].timestamp <= t,
        t >= 0,
    ensures
        spec_state_wf(spec_replay(events, start, end), t, start, end),
        spec_ivs_ordered(spec_replay(events, start, end).usages),
        spec_open_dominates(spec_replay(events, start, end)),
    decreases events.len(),
{
    if events.len() == 0 {
    } else {
        let pre = events.drop_last();
        let e = events.last();
        assert(spec_events_ordered(pre)) by {
            assert forall|i: int, j: int| 0 <= i <= j < pre.len() implies pre[i].timestamp
                <= pre[j].timestamp by {
                assert(pre[i] == events[i] && pre[j] == events[j]);
            }
        }
        assert forall|i: int| 0 <= i < pre.len() implies pre[i].timestamp <= e.timestamp by {
            assert(pre[i] == events[i]);
            assert(events[i].timestamp <= events[events.len() - 1].timestamp);
        }
        lemma_replay_sep(pre, e.timestamp as int, start, end);
        lemma_step_sep(spec_replay(pre, start, end), e, e.timestamp as int, start, end);
        lemma_step_wf(spec_replay(pre, start, end), e, e.timestamp as int, start, end);
        let st2 = spec_replay(events, start, end);
        assert forall|k: int| 0 <= k < st2.usages.len() implies spec_usage_wf(
            #[trigger] st2.usages[k],
            t,
            start,
            end,
        ) by {
            lemma_usage_wf_mono(st2.usages[k], e.timestamp as int, t, start, end);
        }
    }
}

/// No instant of foreground time is counted twice: in a report replayed
/// from a log whose events stand in timestamp order, any two distinct
/// recorded intervals — whether of two applications or of one — are
/// ordered, one ending no later than the other begins. The report's
/// entries carry exactly these interval lists, totals filled in and
/// entries reordered, so no millisecond is counted for two applications.
pub proof fn lemma_no_instant_counted_twice(events: Seq<EventModel>, start: u64, end: u64)
    requires
        spec_events_ordered(events),
    ensures
        spec_ivs_ordered(spec_replay(events, start, end).usages),
{
    lemma_max_ts(events);
    lemma_replay_sep(events, spec_max_ts(events), start, end);
}

/// For a log whose events stand in timestamp order — what the writer
/// produces — every entry of a report carries at least one interval; its
/// intervals lie within the queried window, run forward, and follow one
/// another without overlap; and its total is exactly the sum of its own
/// interval lengths, nothing counted twice.
pub proof fn lemma_totals_are_exact_interval_sums(events: Seq<EventModel>, start: u64, end: u64)
    requires
        spec_events_ordered(events),
    ensures
        forall|k: int|
            0 <= k < spec_report(events, start, end).len() ==> {
                let u = #[trigger] spec_report(events, start, end)[k];
                &&& u.durations.len() > 0
                &&& forall|i: int|
                    0 <= i < u.durations.len() ==> start <= (#[trigger] u.durations[i]).0
                        <= u.durations[i].1 <= end
                &&& forall|i: int|
                    0 <= i < u.durations.len() - 1 ==> (#[trigger] u.durations[i]).1
                        <= u.durations[i + 1].0
                &&& u.total_duration_ms == spec_total_int(u.durations)
            },
{
    let st = spec_replay(events, start, end);
    let t = spec_max_ts(events);
    lemma_max_ts(events);
    lemma_replay_wf(events, t, start, end);
    let fin = spec_finalize(st.usages);
    lemma_sort_desc_props(fin);
    let rep = spec_report(events, start, end);
    assert forall|k: int| 0 <= k < rep.len() implies {
        let u = #[trigger] rep[k];
        &&& u.durations.len() > 0
        &&& forall|i: int|
            0 <= i < u.durations.len() ==> start <= (#[trigger] u.durations[i]).0
                <= u.durations[i].1 <= end
        &&& forall|i: int|
            0 <= i < u.durations.len() - 1 ==> (#[trigger] u.durations[i]).1 <= u.durations[i
                + 1].0
        &&& u.total_duration_ms == spec_total_int(u.durations)
    } by {
        assert(fin.contains(rep[k]));
        let m = choose|m: int| 0 <= m < fin.len() && fin[m] == rep[k];
        assert(spec_usage_wf(st.usages[m], t, start, end));
        assert(fin[m].durations == st.usages[m].durations);
        assert(fin[m].total_duration_ms == spec_total(st.usages[m].durations));
        lemma_chained_total(st.usages[m].durations);
    }
}

} // verus!
