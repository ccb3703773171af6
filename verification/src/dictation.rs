//! The decisions of dictation: what a press and a release of the shortcut,
//! a click in the window or on the pill do in each phase, when a recording is
//! worth recognising, how the result is pasted, and when the idle model is
//! let go. The recorder, the recogniser and the paste run elsewhere.

use vstd::prelude::*;
use crate::paste::{submit_key_of, PasteOptions, SubmitKey};
use crate::settings::{unload_secs, Settings};
use crate::text::{chars_of, eq_chars};
use crate::{PHASE_BUSY, PHASE_READY, PHASE_REC_HOTKEY, PHASE_REC_UI};

verus! {

/// A press held at least this long (ms) is a hold: letting go stops the
/// recording. A shorter tap leaves it running until the next press.
pub const HOLD_MS: u64 = 400;

/// Samples of the shortest recording worth recognising: 0.3 s at 16 kHz.
pub const SHORTEST_SAMPLES: usize = 4800;

/// What to do.
#[derive(Clone, Copy, Debug, PartialEq, Eq)]
pub enum Action {
    /// Start recording; `from_hotkey` when the shortcut started it (the
    /// pill shows, and the result is pasted).
    Start { from_hotkey: bool },
    /// Stop recording and recognise what was said.
    Stop,
    Nothing,
}

/// Whether dictation is recording.
pub open spec fn recording(phase: u8) -> bool {
    phase == PHASE_REC_UI || phase == PHASE_REC_HOTKEY
}

/// What a press of the shortcut does.
pub open spec fn press(phase: u8) -> Action {
    if phase == PHASE_READY {
        Action::Start { from_hotkey: true }
    } else if recording(phase) {
        Action::Stop
    } else {
        Action::Nothing
    }
}

/// What a release of the shortcut does.
pub open spec fn release(phase: u8, held_ms: Option<u64>) -> Action {
    if phase == PHASE_REC_HOTKEY && (held_ms matches Some(h) && h >= HOLD_MS) {
        Action::Stop
    } else {
        Action::Nothing
    }
}

/// The phase once the recorder started, or failed to.
pub open spec fn started_phase(phase: u8, started: bool, from_hotkey: bool) -> u8 {
    if !started {
        phase
    } else if from_hotkey {
        PHASE_REC_HOTKEY
    } else {
        PHASE_REC_UI
    }
}

/// Stopping: the busy phase and whether the result is pasted.
pub open spec fn stopped(phase: u8) -> Option<(u8, bool)> {
    if recording(phase) {
        Some((PHASE_BUSY, phase == PHASE_REC_HOTKEY))
    } else {
        None
    }
}

/// A press of the shortcut: when ready it starts a recording, while
/// recording it stops it; otherwise it does nothing.
pub fn on_press(phase: u8) -> (a: Action)
    ensures
        a == press(phase),
{
    if phase == PHASE_READY {
        Action::Start { from_hotkey: true }
    } else if phase == PHASE_REC_UI || phase == PHASE_REC_HOTKEY {
        Action::Stop
    } else {
        Action::Nothing
    }
}

/// A click on the record button of the window: the same as a press, but a
/// recording it starts is not pasted.
pub fn on_toggle(phase: u8) -> (a: Action)
    ensures
        a == (if phase == PHASE_READY {
            Action::Start { from_hotkey: false }
        } else if recording(phase) {
            Action::Stop
        } else {
            Action::Nothing
        }),
{
    if phase == PHASE_READY {
        Action::Start { from_hotkey: false }
    } else if phase == PHASE_REC_UI || phase == PHASE_REC_HOTKEY {
        Action::Stop
    } else {
        Action::Nothing
    }
}

/// A release of the shortcut, `held_ms` after the press that started the
/// recording (`None` when no press is known): a hold stops the recording the
/// shortcut started; a quick tap leaves it running.
pub fn on_release(phase: u8, held_ms: Option<u64>) -> (a: Action)
    ensures
        a == release(phase, held_ms),
{
    if phase != PHASE_REC_HOTKEY {
        return Action::Nothing;
    }
    match held_ms {
        Some(h) => if h >= HOLD_MS {
            Action::Stop
        } else {
            Action::Nothing
        },
        None => Action::Nothing,
    }
}

/// The phase once the recorder started (or failed to): recording from the
/// shortcut or from the window; a failed start leaves the phase as it was.
pub fn after_start(phase: u8, started: bool, from_hotkey: bool) -> (p: u8)
    ensures
        p == started_phase(phase, started, from_hotkey),
{
    if !started {
        phase
    } else if from_hotkey {
        PHASE_REC_HOTKEY
    } else {
        PHASE_REC_UI
    }
}

/// Stopping: only a recording stops; it goes busy, and what the shortcut
/// started is pasted when recognised. `None` — nothing was recording.
pub fn stop(phase: u8) -> (r: Option<(u8, bool)>)
    ensures
        r == stopped(phase),
{
    if phase != PHASE_REC_UI && phase != PHASE_REC_HOTKEY {
        return None;
    }
    Some((PHASE_BUSY, phase == PHASE_REC_HOTKEY))
}

/// Whether a recording of `samples` samples at 16 kHz is worth recognising:
/// shorter than 0.3 s it is taken as empty.
pub fn worth_recognising(samples: usize) -> (r: bool)
    ensures
        r == (samples >= SHORTEST_SAMPLES),
{
    samples >= SHORTEST_SAMPLES
}

/// Whether the result is pasted: into what had the focus, when the
/// shortcut started the recording and something was recognised.
pub fn pastes(from_hotkey: bool, text: &str) -> (r: bool)
    ensures
        r == (from_hotkey && text@.len() > 0),
{
    from_hotkey && !text.is_empty()
}

/// How the result is pasted, by the settings: the clipboard is put back
/// unless it is to keep the text, and enter is pressed when asked for.
pub fn paste_options(s: &Settings) -> (r: PasteOptions)
    ensures
        r.restore_clipboard == (s.clipboard_handling@ != "keep"@),
        r.submit == (if s.auto_submit { Some(submit_key_of(s.auto_submit_key@)) } else { None::<SubmitKey> }),
{
    let keep = eq_chars(&chars_of(s.clipboard_handling.as_str()), &chars_of("keep"));
    let submit = if s.auto_submit {
        Some(SubmitKey::parse(s.auto_submit_key.as_str()))
    } else {
        None
    };
    PasteOptions { restore_clipboard: !keep, submit }
}

/// Whether the system sound is muted or unmuted around a recording.
pub fn mutes(s: &Settings) -> (r: bool)
    ensures
        r == s.mute_while_recording,
{
    s.mute_while_recording
}

/// Whether the idle model is let go now: only when dictation is ready, the
/// model is loaded, no meeting is being worked on, the settings unload at
/// all, and it has been idle that long.
pub fn may_unload(phase: u8, loaded: bool, meetings_busy: bool, unload_after: Option<u64>, idle_secs: u64) -> (r: bool)
    ensures
        r == (phase == PHASE_READY && loaded && !meetings_busy && (unload_after matches Some(a) && idle_secs >= a)),
{
    if phase != PHASE_READY || !loaded || meetings_busy {
        return false;
    }
    match unload_after {
        Some(a) => idle_secs >= a,
        None => false,
    }
}

/// After the unload setting changed: the model goes at once when it is now
/// to be unloaded immediately.
pub fn unload_now(s: &Settings) -> (r: bool)
    ensures
        r == (unload_secs(s.model_unload@) == Some(0u64)),
{
    match s.unload_after() {
        Some(a) => a == 0,
        None => false,
    }
}

/// The shortcut works as the window says: a press when ready starts a
/// recording from the shortcut; letting go after a hold stops it, letting
/// go after a quick tap leaves it running until the next press, which stops
/// it; and what the shortcut recorded is pasted, what the window recorded
/// is not.
pub proof fn law_tap_or_hold(held: u64)
    ensures
        press(PHASE_READY) == (Action::Start { from_hotkey: true }),
        started_phase(PHASE_READY, true, true) == PHASE_REC_HOTKEY,
        held >= HOLD_MS ==> release(PHASE_REC_HOTKEY, Some(held)) == Action::Stop,
        held < HOLD_MS ==> release(PHASE_REC_HOTKEY, Some(held)) == Action::Nothing,
        press(PHASE_REC_HOTKEY) == Action::Stop,
        stopped(PHASE_REC_HOTKEY) == Some((PHASE_BUSY, true)),
        stopped(PHASE_REC_UI) == Some((PHASE_BUSY, false)),
        release(PHASE_REC_UI, Some(held)) == Action::Nothing,
{
}

} // verus!
