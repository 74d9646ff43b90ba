//! Events and the log-line codec.
//!
//! A daily log file holds newline-delimited, comma-separated records:
//!
//! * `0,<timestamp_ms>,<executable_path>` — an application came to front,
//! * `1,<timestamp_ms>` — a shutdown (or sleep) was detected,
//! * `2,<timestamp_ms>` — monitoring was stopped on purpose.
//!
//! Paths are not escaped, so a path holding a comma is cut short at the
//! comma when read back; that is a limitation of the format itself.

use crate::bytes::copy_range;
use crate::bytes::find_byte_from;
use crate::bytes::index_of_from;
use crate::bytes::lemma_index_of_from;
use crate::bytes::lemma_index_of_from_eq;
use crate::digits::decimal;
use crate::digits::is_digit;
use crate::digits::lemma_decimal_digits;
use crate::digits::parse_u64;
use crate::digits::spec_parse_u64;
use crate::digits::u64_to_decimal;
use vstd::prelude::*;

verus! {

/// The kind of a logged fact.
#[derive(Clone, Copy, Debug, PartialEq, Eq, Structural)]
pub enum EventType {
    CameToFront,
    ShutDown,
    StopMonitoring,
}

/// The numeric tag under which each kind is written to the log.
pub open spec fn spec_kind_tag(k: EventType) -> int {
    match k {
        EventType::CameToFront => 0,
        EventType::ShutDown => 1,
        EventType::StopMonitoring => 2,
    }
}

impl EventType {
    pub fn to_int(&self) -> (r: i32)
        ensures
            r == spec_kind_tag(*self),
    {
        match self {
            EventType::CameToFront => 0,
            EventType::ShutDown => 1,
            EventType::StopMonitoring => 2,
        }
    }
}

/// One immutable, timestamped fact. `path` is the executable path of the
/// application that came to front; for the other two kinds it is empty.
pub struct Event {
    pub kind: EventType,
    pub timestamp: u64,
    pub path: Vec<u8>,
}

/// Mathematical image of an [`Event`].
pub ghost struct EventModel {
    pub kind: EventType,
    pub timestamp: u64,
    pub path: Seq<u8>,
}

impl View for Event {
    type V = EventModel;

    open spec fn view(&self) -> EventModel {
        EventModel { kind: self.kind, timestamp: self.timestamp, path: self.path@ }
    }
}

/// View of an optional event, for contracts over parser results.
pub open spec fn opt_event_view(r: Option<Event>) -> Option<EventModel> {
    match r {
        Some(e) => Some(e@),
        None => None,
    }
}

/// The exact line written for an event, newline excluded.
pub open spec fn spec_format_line(e: EventModel) -> Seq<u8> {
    match e.kind {
        EventType::CameToFront => seq![48u8, 44u8] + decimal(e.timestamp as nat) + seq![44u8]
            + e.path,
        EventType::ShutDown => seq![49u8, 44u8] + decimal(e.timestamp as nat),
        EventType::StopMonitoring => seq![50u8, 44u8] + decimal(e.timestamp as nat),
    }
}

/// What reading one line yields. A line with no comma, an unparsable
/// timestamp, an unknown kind tag, or a front-change record with no path
/// field yields nothing and is skipped by the replay.
pub open spec fn spec_parse_line(l: Seq<u8>) -> Option<EventModel> {
    let c1 = index_of_from(l, 44, 0);
    if c1 == l.len() {
        None
    } else {
        let kind_field = l.take(c1);
        let c2 = index_of_from(l, 44, c1 + 1);
        match spec_parse_u64(l.subrange(c1 + 1, c2)) {
            None => None,
            Some(ts) => {
                if kind_field == seq![48u8] {
                    if c2 == l.len() {
                        None
                    } else {
                        let c3 = index_of_from(l, 44, c2 + 1);
                        Some(
                            EventModel {
                                kind: EventType::CameToFront,
                                timestamp: ts,
                                path: l.subrange(c2 + 1, c3),
                            },
                        )
                    }
                } else if kind_field == seq![49u8] {
                    Some(
                        EventModel {
                            kind: EventType::ShutDown,
                            timestamp: ts,
                            path: Seq::empty(),
                        },
                    )
                } else if kind_field == seq![50u8] {
                    Some(
                        EventModel {
                            kind: EventType::StopMonitoring,
                            timestamp: ts,
                            path: Seq::empty(),
                        },
                    )
                } else {
                    None
                }
            },
        }
    }
}

/// Encodes an event as one log line (newline excluded).
pub fn format_event_line(e: &Event) -> (r: Vec<u8>)
    ensures
        r@ == spec_format_line(e@),
{
    let mut out: Vec<u8> = Vec::new();
    let tag: u8 = match e.kind {
        EventType::CameToFront => 48,
        EventType::ShutDown => 49,
        EventType::StopMonitoring => 50,
    };
    out.push(tag);
    out.push(44);
    let ts = u64_to_decimal(e.timestamp);
    out.extend_from_slice(ts.as_slice());
    match e.kind {
        EventType::CameToFront => {
            out.push(44);
            out.extend_from_slice(e.path.as_slice());
            proof {
                assert(out@ =~= seq![48u8, 44u8] + decimal(e.timestamp as nat) + seq![44u8]
                    + e.path@);
            }
        },
        EventType::ShutDown => {
            proof {
                assert(out@ =~= seq![49u8, 44u8] + decimal(e.timestamp as nat));
            }
        },
        EventType::StopMonitoring => {
            proof {
                assert(out@ =~= seq![50u8, 44u8] + decimal(e.timestamp as nat));
            }
        },
    }
    out
}

/// Decodes one log line; `None` marks a malformed or unknown line.
pub fn parse_line(l: &Vec<u8>) -> (r: Option<Event>)
    ensures
        opt_event_view(r) == spec_parse_line(l@),
{
    let c1 = find_byte_from(l, 44, 0);
    proof {
        lemma_index_of_from(l@, 44, 0);
    }
    if c1 == l.len() {
        return None;
    }
    let c2 = find_byte_from(l, 44, c1 + 1);
    proof {
        lemma_index_of_from(l@, 44, c1 + 1);
    }
    let ts_field = copy_range(l, c1 + 1, c2);
    let ts = match parse_u64(&ts_field) {
        Some(t) => t,
        None => {
            return None;
        },
    };
    proof {
        let kf = l@.take(c1 as int);
        assert(kf.len() == c1);
        if c1 == 1 {
            assert(kf =~= seq![l@[0]]);
        }
        if kf == seq![48u8] || kf == seq![49u8] || kf == seq![50u8] {
            assert(kf.len() == 1);
            assert(kf[0] == l@[0]);
        }
    }
    if c1 == 1 && l[0] == 48 {
        if c2 == l.len() {
            None
        } else {
            let c3 = find_byte_from(l, 44, c2 + 1);
            proof {
                lemma_index_of_from(l@, 44, c2 + 1);
            }
            let path = copy_range(l, c2 + 1, c3);
            Some(Event { kind: EventType::CameToFront, timestamp: ts, path })
        }
    } else if c1 == 1 && l[0] == 49 {
        Some(Event { kind: EventType::ShutDown, timestamp: ts, path: Vec::new() })
    } else if c1 == 1 && l[0] == 50 {
        Some(Event { kind: EventType::StopMonitoring, timestamp: ts, path: Vec::new() })
    } else {
        None
    }
}

/// Reading back a written line yields the event it was written for: the
/// codec loses nothing, as long as a front-change path holds no comma (the
/// format cannot carry one) and the kinds without a path carry none.
pub proof fn lemma_line_round_trip(e: EventModel)
    requires
        forall|i: int| 0 <= i < e.path.len() ==> e.path[i] != 44,
        e.kind != EventType::CameToFront ==> e.path == Seq::<u8>::empty(),
    ensures
        spec_parse_line(spec_format_line(e)) == Some(e),
{
    let l = spec_format_line(e);
    let d = decimal(e.timestamp as nat);
    lemma_decimal_digits(e.timestamp as nat);
    assert(forall|i: int| 0 <= i < d.len() ==> is_digit(#[trigger] d[i]));
    match e.kind {
        EventType::CameToFront => {
            assert(l =~= seq![48u8, 44u8] + d + seq![44u8] + e.path);
            assert(l.len() == 3 + d.len() as int + e.path.len());
            assert(l[0] == 48 && l[1] == 44);
            assert(forall|k: int| 2 <= k < 2 + d.len() as int ==> #[trigger] l[k] == d[k - 2]);
            assert(l[2 + d.len() as int] == 44);
            assert(forall|k: int|
                3 + d.len() as int <= k < l.len() ==> #[trigger] l[k] == e.path[k - 3 - d.len()]);
            lemma_index_of_from_eq(l, 44, 0, 1);
            lemma_index_of_from_eq(l, 44, 2, 2 + d.len() as int);
            lemma_index_of_from_eq(l, 44, 3 + d.len() as int, l.len() as int);
            let c1 = index_of_from(l, 44, 0);
            let c2 = index_of_from(l, 44, c1 + 1);
            assert(c1 == 1 && c2 == 2 + d.len() as int);
            assert(l.take(1) =~= seq![48u8]);
            assert(l.subrange(2, 2 + d.len() as int) =~= d);
            assert(d[0] != 43);
            assert(spec_parse_u64(d) == Some(e.timestamp));
            assert(c2 < l.len());
            let c3 = index_of_from(l, 44, c2 + 1);
            assert(c3 == l.len());
            assert(l.subrange(3 + d.len() as int, l.len() as int) =~= e.path);
        },
        EventType::ShutDown => {
            assert(l =~= seq![49u8, 44u8] + d);
            assert(l.len() == 2 + d.len() as int);
            assert(l[0] == 49 && l[1] == 44);
            assert(forall|k: int| 2 <= k < 2 + d.len() as int ==> #[trigger] l[k] == d[k - 2]);
            lemma_index_of_from_eq(l, 44, 0, 1);
            lemma_index_of_from_eq(l, 44, 2, l.len() as int);
            let c1 = index_of_from(l, 44, 0);
            assert(c1 == 1);
            assert(l.take(1) =~= seq![49u8]);
            assert(l.take(1) != seq![48u8]) by {
                if l.take(1) == seq![48u8] {
                    assert(l.take(1)[0] == seq![48u8][0]);
                }
            }
            assert(l.subrange(2, l.len() as int) =~= d);
            assert(d[0] != 43);
            assert(spec_parse_u64(d) == Some(e.timestamp));
        },
        EventType::StopMonitoring => {
            assert(l =~= seq![50u8, 44u8] + d);
            assert(l.len() == 2 + d.len() as int);
            assert(l[0] == 50 && l[1] == 44);
            assert(forall|k: int| 2 <= k < 2 + d.len() as int ==> #[trigger] l[k] == d[k - 2]);
            lemma_index_of_from_eq(l, 44, 0, 1);
            lemma_index_of_from_eq(l, 44, 2, l.len() as int);
            let c1 = index_of_from(l, 44, 0);
            assert(c1 == 1);
            assert(l.take(1) =~= seq![50u8]);
            assert(l.take(1) != seq![48u8] && l.take(1) != seq![49u8]) by {
                if l.take(1) == seq![48u8] {
                    assert(l.take(1)[0] == seq![48u8][0]);
                }
                if l.take(1) == seq![49u8] {
                    assert(l.take(1)[0] == seq![49u8][0]);
                }
            }
            assert(l.subrange(2, l.len() as int) =~= d);
            assert(d[0] != 43);
            assert(spec_parse_u64(d) == Some(e.timestamp));
        },
    }
}

} // verus!
