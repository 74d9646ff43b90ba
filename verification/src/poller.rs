//! The foreground poller state machine.
//!
//! Once a second a tick hands the machine the current wall-clock time and
//! the executable path resolved for the frontmost window, if one could be
//! resolved. The machine debounces against the path it already tracks, so
//! at most one front-change event is emitted per actual change, and it
//! watches its own heartbeat: a gap of more than ten seconds between
//! ticks means the machine slept or the process was suspended, so a
//! shutdown event is emitted and the tracked path discarded, making the
//! next real foreground observation count as new.

use crate::app_name::opt_bytes_view;
use crate::bytes::copy_range;
use crate::bytes::vec_u8_eq;
use crate::event::Event;
use crate::event::EventModel;
use crate::event::EventType;
use vstd::prelude::*;

verus! {

/// Wall-clock gap, in milliseconds, beyond which a missed heartbeat is
/// taken as sleep or crash.
pub const HEARTBEAT_GAP_MS: u64 = 10000;

/// The poller: the path last reported as in front (`None` when none is
/// tracked) and the time of the last completed tick.
pub struct Poller {
    pub previous_path: Option<Vec<u8>>,
    pub last_check_timestamp: u64,
}

/// Mathematical image of a [`Poller`].
pub ghost struct PollerModel {
    pub previous_path: Option<Seq<u8>>,
    pub last_check_timestamp: u64,
}

impl View for Poller {
    type V = PollerModel;

    open spec fn view(&self) -> PollerModel {
        PollerModel {
            previous_path: opt_bytes_view(self.previous_path),
            last_check_timestamp: self.last_check_timestamp,
        }
    }
}

pub open spec fn events_view(v: Seq<Event>) -> Seq<EventModel> {
    v.map_values(|e: Event| e@)
}

/// Did the heartbeat gap fire: more than ten seconds since the last
/// completed tick.
pub open spec fn spec_gap_fired(st: PollerModel, now: u64) -> bool {
    now > st.last_check_timestamp + HEARTBEAT_GAP_MS
}

/// The tracked path after a tick: whatever was resolved; with nothing
/// resolved, the old path, unless the heartbeat gap discarded it.
pub open spec fn spec_tick_prev(st: PollerModel, now: u64, resolved: Option<Seq<u8>>) -> Option<
    Seq<u8>,
> {
    match resolved {
        Some(p) => Some(p),
        None => if spec_gap_fired(st, now) {
            None
        } else {
            st.previous_path
        },
    }
}

/// The events one tick emits, in emission order: a shutdown when the
/// heartbeat gap fired, then a front-change when the resolved path
/// differs from the tracked one (after the gap discarded it, any resolved
/// path counts as new).
pub open spec fn spec_tick_events(st: PollerModel, now: u64, resolved: Option<Seq<u8>>) -> Seq<
    EventModel,
> {
    let fired = spec_gap_fired(st, now);
    let shut: Seq<EventModel> = if fired {
        seq![EventModel { kind: EventType::ShutDown, timestamp: now, path: Seq::empty() }]
    } else {
        Seq::empty()
    };
    let prev1: Option<Seq<u8>> = if fired {
        None
    } else {
        st.previous_path
    };
    match resolved {
        Some(p) => if prev1 != Some(p) {
            shut.push(EventModel { kind: EventType::CameToFront, timestamp: now, path: p })
        } else {
            shut
        },
        None => shut,
    }
}

impl Poller {
    /// A fresh poller: nothing tracked, heartbeat anchored at `now`.
    pub fn new(now: u64) -> (p: Poller)
        ensures
            p@.previous_path == Option::<Seq<u8>>::None,
            p@.last_check_timestamp == now,
    {
        Poller { previous_path: None, last_check_timestamp: now }
    }

    /// One tick: `resolved` is the executable path of the frontmost
    /// window, or `None` when it could not be resolved. Returns the
    /// events to append to the log, in order.
    pub fn tick(&mut self, now: u64, resolved: Option<Vec<u8>>) -> (events: Vec<Event>)
        ensures
            final(self)@.last_check_timestamp == now,
            final(self)@.previous_path == spec_tick_prev(old(self)@, now, opt_bytes_view(
                resolved,
            )),
            events_view(events@) == spec_tick_events(old(self)@, now, opt_bytes_view(resolved)),
    {
        let ghost st0 = self@;
        let ghost rv = opt_bytes_view(resolved);
        let fired = now > self.last_check_timestamp.saturating_add(HEARTBEAT_GAP_MS);
        proof {
            assert(fired == spec_gap_fired(st0, now));
        }
        let mut events: Vec<Event> = Vec::new();
        if fired {
            events.push(Event { kind: EventType::ShutDown, timestamp: now, path: Vec::new() });
            self.previous_path = None;
        }
        let ghost shut = events_view(events@);
        proof {
            if fired {
                assert(shut =~= seq![
                    EventModel { kind: EventType::ShutDown, timestamp: now, path: Seq::empty() },
                ]);
            } else {
                assert(shut =~= Seq::<EventModel>::empty());
            }
        }
        match resolved {
            Some(p) => {
                let differs = match &self.previous_path {
                    Some(prev) => !vec_u8_eq(prev, &p),
                    None => true,
                };
                if differs {
                    let p2 = copy_range(&p, 0, p.len());
                    proof {
                        assert(p2@ =~= p@);
                    }
                    events.push(
                        Event { kind: EventType::CameToFront, timestamp: now, path: p2 },
                    );
                    proof {
                        assert(events_view(events@) =~= shut.push(
                            EventModel {
                                kind: EventType::CameToFront,
                                timestamp: now,
                                path: p@,
                            },
                        ));
                    }
                } else {
                    proof {
                        assert(events_view(events@) =~= shut);
                    }
                }
                self.previous_path = Some(p);
            },
            None => {
                proof {
                    assert(events_view(events@) =~= shut);
                }
            },
        }
        self.last_check_timestamp = now;
        events
    }
}

/// Debouncing: a tick that resolves the very path already tracked, within
/// the heartbeat gap, emits nothing at all.
pub proof fn lemma_tick_debounce(p: Seq<u8>, now1: u64, now2: u64)
    requires
        now2 <= now1 + HEARTBEAT_GAP_MS,
    ensures
        spec_tick_events(
            PollerModel { previous_path: Some(p), last_check_timestamp: now1 },
            now2,
            Some(p),
        ) == Seq::<EventModel>::empty(),
{
    let st = PollerModel { previous_path: Some(p), last_check_timestamp: now1 };
    assert(!spec_gap_fired(st, now2));
    assert(spec_tick_events(st, now2, Some(p)) =~= Seq::<EventModel>::empty());
}

} // verus!
