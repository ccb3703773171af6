//! Keeping the sound output awake: after idling, a sound card may sleep and
//! take up to two seconds to wake, which delayed the start signal of a
//! recording. While the setting is on, a silent output stream stays open;
//! it is reopened every few minutes, as the system's output device may have
//! changed (headphones plugged in). Here: what the keeper does on each
//! event; the stream itself lives with the caller.

use vstd::prelude::*;

verus! {

/// Seconds between planned reopenings of the silent stream.
pub const REOPEN_SECS: u64 = 300;

/// What reaches the keeper.
#[derive(Clone, Copy, Debug, PartialEq, Eq)]
pub enum KeeperEvent {
    /// The setting was switched on or off.
    Switch(bool),
    /// Nothing came for the reopening period.
    Timeout,
    /// Whoever switched the setting is gone.
    Disconnected,
}

/// What the keeper does with its stream.
#[derive(Clone, Copy, Debug, PartialEq, Eq)]
pub enum KeeperAction {
    /// Stop keeping for good.
    Exit,
    /// Let the stream go (there may be none).
    Close,
    /// Open a silent stream (there is none).
    Open,
    /// Let the stream go and open a new one on the current device.
    Reopen,
    /// Leave things as they are.
    Keep,
}

/// One event of the keeper: whether it now wants the output kept, and what
/// it does. A timeout lets the stream go and, when still wanted, opens a
/// new one on the current device; being switched on opens one when there is
/// none.
pub open spec fn keeper_step_spec(wanted: bool, open: bool, event: KeeperEvent) -> (bool, KeeperAction) {
    match event {
        KeeperEvent::Disconnected => (wanted, KeeperAction::Exit),
        KeeperEvent::Switch(on) => if !on {
            (false, KeeperAction::Close)
        } else if open {
            (true, KeeperAction::Keep)
        } else {
            (true, KeeperAction::Open)
        },
        KeeperEvent::Timeout => if !wanted {
            (false, KeeperAction::Close)
        } else {
            (true, KeeperAction::Reopen)
        },
    }
}

/// One event of the keeper.
pub fn keeper_step(wanted: bool, open: bool, event: KeeperEvent) -> (r: (bool, KeeperAction))
    ensures
        r == keeper_step_spec(wanted, open, event),
{
    match event {
        KeeperEvent::Disconnected => (wanted, KeeperAction::Exit),
        KeeperEvent::Switch(on) => {
            if !on {
                (false, KeeperAction::Close)
            } else if open {
                (true, KeeperAction::Keep)
            } else {
                (true, KeeperAction::Open)
            }
        },
        KeeperEvent::Timeout => {
            if !wanted {
                (false, KeeperAction::Close)
            } else {
                (true, KeeperAction::Reopen)
            }
        },
    }
}

/// Switched off, the keeper holds no stream; switched on, it holds one after
/// any event but the last.
pub proof fn law_keeper_follows_setting(wanted: bool, open: bool, on: bool)
    ensures
        !on ==> keeper_step_spec(wanted, open, KeeperEvent::Switch(on)).1 == KeeperAction::Close,
        on ==> keeper_step_spec(wanted, open, KeeperEvent::Switch(on)).1 != KeeperAction::Close,
        keeper_step_spec(wanted, open, KeeperEvent::Switch(on)).0 == on,
        keeper_step_spec(wanted, open, KeeperEvent::Timeout).0 == wanted,
{
}

} // verus!
