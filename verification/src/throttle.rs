//! Events to the window at most a few times a second. Progress of a
//! download or a transcription notifies on every percent, a fast network
//! tens of times a second; extra notifications collapse into one, and the
//! last always arrives.
//!
//! The clock, the timer and the window stay with the caller: it hands each
//! event's time in milliseconds to [`on_event`], performs the action, and
//! calls [`on_fired`] when a delayed notification goes out.

use vstd::prelude::*;

verus! {

/// The least time between two notifications of one event, in milliseconds.
pub const GAP_MS: u64 = 200;

/// What is known of one event: when it last went out, and whether a
/// delayed notification is waiting.
#[derive(Clone, Copy, Debug, PartialEq, Eq, Structural)]
pub struct Gate {
    pub last: u64,
    pub pending: bool,
}

/// What to do with an event.
#[derive(Clone, Copy, Debug, PartialEq, Eq, Structural)]
pub enum Throttle {
    /// Notify now.
    Emit,
    /// Notify once after this many milliseconds, for the whole burst.
    Later(u64),
    /// A delayed notification is already waiting; it covers this event.
    Skip,
}

/// Time since the last notification; a clock that went back counts as none.
pub open spec fn elapsed(last: u64, now: u64) -> int {
    if now >= last {
        now - last
    } else {
        0
    }
}

/// Decision for an event: the new state of the event and what to do.
pub open spec fn on_event_spec(gate: Option<Gate>, now: u64) -> (Gate, Throttle) {
    match gate {
        None => (Gate { last: now, pending: false }, Throttle::Emit),
        Some(g) => if elapsed(g.last, now) < GAP_MS {
            if g.pending {
                (g, Throttle::Skip)
            } else {
                (Gate { last: g.last, pending: true }, Throttle::Later((GAP_MS - elapsed(g.last, now)) as u64))
            }
        } else {
            (Gate { last: now, pending: false }, Throttle::Emit)
        },
    }
}

/// Decides what to do with an event at `now` (milliseconds), given the
/// event's gate if it went out before.
pub fn on_event(gate: Option<Gate>, now: u64) -> (r: (Gate, Throttle))
    ensures
        r == on_event_spec(gate, now),
{
    match gate {
        None => (Gate { last: now, pending: false }, Throttle::Emit),
        Some(g) => {
            let since = if now >= g.last {
                now - g.last
            } else {
                0
            };
            if since < GAP_MS {
                if g.pending {
                    (g, Throttle::Skip)
                } else {
                    (Gate { last: g.last, pending: true }, Throttle::Later(GAP_MS - since))
                }
            } else {
                (Gate { last: now, pending: false }, Throttle::Emit)
            }
        },
    }
}

/// A delayed notification has gone out: its gap starts again.
pub fn on_fired(gate: Gate, now: u64) -> (r: Gate)
    ensures
        r == (Gate { last: now, pending: false }),
{
    Gate { last: now, pending: false }
}

/// No event is lost: either it goes out at once, or a delayed notification
/// is waiting after it. An event goes out at once only when it is the first
/// or the gap has passed, and a delayed one is timed for the end of the gap.
pub proof fn law_last_event_arrives(gate: Option<Gate>, now: u64)
    ensures
        ({
            let (g, act) = on_event_spec(gate, now);
            &&& act is Emit || g.pending
            &&& act is Emit ==> (gate is None || elapsed(gate.unwrap().last, now) >= GAP_MS) && g.last == now
            &&& act matches Throttle::Later(w) ==> (0 < w <= GAP_MS && elapsed(gate.unwrap().last, now) + w == GAP_MS)
            &&& act is Skip ==> (gate matches Some(old) && old.pending && g == old)
        }),
{
}

} // verus!
