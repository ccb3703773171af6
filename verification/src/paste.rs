//! Pasting recognised text into the active application: what to do, in
//! what order — the keystrokes themselves are sent by the application.

use vstd::prelude::*;
use crate::text::{chars_of, eq_chars, string_of};

verus! {

/// The paste message when automatic pasting cannot happen on macOS.
pub const PASTE_YOURSELF_MAC: &'static str = "Текст в буфере обмена — нажмите ⌘V. Для автовставки включите Универсальный доступ";
/// The paste message when automatic pasting cannot happen elsewhere.
pub const PASTE_YOURSELF: &'static str = "Текст в буфере обмена — нажмите Ctrl+V";

/// Whether the system lets the application send keystrokes. Systems other
/// than macOS ask for no separate permission; on macOS the application asks
/// the system itself.
pub fn accessibility_granted() -> (r: bool)
    ensures
        r,
{
    true
}

/// Which enter to press after pasting.
#[derive(Clone, Copy, PartialEq, Eq, Structural)]
pub enum SubmitKey {
    Enter,
    CtrlEnter,
    CmdEnter,
}

/// The key a setting names: "ctrl_enter", "cmd_enter", anything else is
/// plain enter.
pub open spec fn submit_key_of(name: Seq<char>) -> SubmitKey {
    if name == "ctrl_enter"@ {
        SubmitKey::CtrlEnter
    } else if name == "cmd_enter"@ {
        SubmitKey::CmdEnter
    } else {
        SubmitKey::Enter
    }
}

impl SubmitKey {
    /// The key a setting names.
    pub fn parse(name: &str) -> (r: Self)
        ensures
            r == submit_key_of(name@),
    {
        let n = chars_of(name);
        if eq_chars(&n, &chars_of("ctrl_enter")) {
            SubmitKey::CtrlEnter
        } else if eq_chars(&n, &chars_of("cmd_enter")) {
            SubmitKey::CmdEnter
        } else {
            SubmitKey::Enter
        }
    }
}

/// How to treat the clipboard and whether to press enter.
pub struct PasteOptions {
    /// Put back what the clipboard held before.
    pub restore_clipboard: bool,
    /// Press enter after pasting; `None` — do not.
    pub submit: Option<SubmitKey>,
}

/// A key of a paste.
#[derive(Clone, Copy, PartialEq, Eq, Structural)]
pub enum Key {
    /// The paste modifier: ⌘ on macOS, Ctrl elsewhere.
    PasteMod,
    Control,
    /// The V key by its virtual code, whatever the layout.
    V,
    Return,
}

/// What a key does.
#[derive(Clone, Copy, PartialEq, Eq, Structural)]
pub enum Direction {
    Press,
    Release,
    Click,
}

/// One step of a paste.
#[derive(Clone, Copy, PartialEq, Eq, Structural)]
pub enum PasteStep {
    /// Remember what the clipboard holds now.
    SaveClipboard,
    /// Put the text in the clipboard.
    WriteText,
    /// Wait so many milliseconds.
    Sleep(u64),
    Key(Key, Direction),
    /// Put back what the clipboard held.
    RestoreClipboard,
}

/// The keystrokes of pressing enter.
pub open spec fn submit_steps(key: SubmitKey) -> Seq<PasteStep> {
    match key {
        SubmitKey::Enter => seq![PasteStep::Key(Key::Return, Direction::Click)],
        SubmitKey::CtrlEnter => seq![
            PasteStep::Key(Key::Control, Direction::Press),
            PasteStep::Key(Key::Return, Direction::Click),
            PasteStep::Key(Key::Control, Direction::Release),
        ],
        SubmitKey::CmdEnter => seq![
            PasteStep::Key(Key::PasteMod, Direction::Press),
            PasteStep::Key(Key::Return, Direction::Click),
            PasteStep::Key(Key::PasteMod, Direction::Release),
        ],
    }
}

/// A paste, step by step: without the permission the text is only left in
/// the clipboard (and the old clipboard is not put back, or it would wipe
/// the text a moment later); with it, the old clipboard is saved if it is to
/// come back, the text goes in, paste is pressed, then enter if asked, and
/// after a pause the old clipboard returns.
pub open spec fn paste_plan(granted: bool, restore: bool, submit: Option<SubmitKey>) -> Seq<PasteStep> {
    if !granted {
        seq![PasteStep::WriteText]
    } else {
        (if restore { seq![PasteStep::SaveClipboard] } else { Seq::empty() }) + seq![
            PasteStep::WriteText,
            PasteStep::Sleep(80),
            PasteStep::Key(Key::PasteMod, Direction::Press),
            PasteStep::Key(Key::V, Direction::Click),
            PasteStep::Key(Key::PasteMod, Direction::Release),
        ] + (match submit {
            Some(k) => seq![PasteStep::Sleep(60)] + submit_steps(k),
            None => Seq::empty(),
        }) + seq![PasteStep::Sleep(300)] + (if restore { seq![PasteStep::RestoreClipboard] } else {
            Seq::empty()
        })
    }
}

/// The steps of a paste, see [`paste_plan`].
pub fn paste_steps(granted: bool, options: &PasteOptions) -> (r: Vec<PasteStep>)
    ensures
        r@ == paste_plan(granted, options.restore_clipboard, options.submit),
{
    let mut out: Vec<PasteStep> = Vec::new();
    if !granted {
        out.push(PasteStep::WriteText);
        assert(out@ =~= paste_plan(granted, options.restore_clipboard, options.submit));
        return out;
    }
    if options.restore_clipboard {
        out.push(PasteStep::SaveClipboard);
    }
    out.push(PasteStep::WriteText);
    out.push(PasteStep::Sleep(80));
    out.push(PasteStep::Key(Key::PasteMod, Direction::Press));
    out.push(PasteStep::Key(Key::V, Direction::Click));
    out.push(PasteStep::Key(Key::PasteMod, Direction::Release));
    match options.submit {
        Some(k) => {
            out.push(PasteStep::Sleep(60));
            match k {
                SubmitKey::Enter => {
                    out.push(PasteStep::Key(Key::Return, Direction::Click));
                },
                SubmitKey::CtrlEnter => {
                    out.push(PasteStep::Key(Key::Control, Direction::Press));
                    out.push(PasteStep::Key(Key::Return, Direction::Click));
                    out.push(PasteStep::Key(Key::Control, Direction::Release));
                },
                SubmitKey::CmdEnter => {
                    out.push(PasteStep::Key(Key::PasteMod, Direction::Press));
                    out.push(PasteStep::Key(Key::Return, Direction::Click));
                    out.push(PasteStep::Key(Key::PasteMod, Direction::Release));
                },
            }
        },
        None => {},
    }
    out.push(PasteStep::Sleep(300));
    if options.restore_clipboard {
        out.push(PasteStep::RestoreClipboard);
    }
    assert(out@ =~= paste_plan(granted, options.restore_clipboard, options.submit));
    out
}

/// Every key a paste presses is released later in the same paste.
pub proof fn law_paste_releases_keys(granted: bool, restore: bool, submit: Option<SubmitKey>)
    ensures
        forall|i: int|
            0 <= i < paste_plan(granted, restore, submit).len() && #[trigger] paste_plan(granted, restore, submit)[i]
                is Key && paste_plan(granted, restore, submit)[i]->Key_1 == Direction::Press ==> exists|j: int|
                i < j < paste_plan(granted, restore, submit).len() && paste_plan(granted, restore, submit)[j]
                    == PasteStep::Key(paste_plan(granted, restore, submit)[i]->Key_0, Direction::Release),
{
    let p = paste_plan(granted, restore, submit);
    if granted {
        let o: int = if restore { 1 } else { 0 };
        let head = (if restore { seq![PasteStep::SaveClipboard] } else { Seq::<PasteStep>::empty() }) + seq![
            PasteStep::WriteText,
            PasteStep::Sleep(80),
            PasteStep::Key(Key::PasteMod, Direction::Press),
            PasteStep::Key(Key::V, Direction::Click),
            PasteStep::Key(Key::PasteMod, Direction::Release),
        ];
        let sub = match submit {
            Some(k) => seq![PasteStep::Sleep(60)] + submit_steps(k),
            None => Seq::<PasteStep>::empty(),
        };
        let tail = seq![PasteStep::Sleep(300)] + (if restore { seq![PasteStep::RestoreClipboard] } else {
            Seq::<PasteStep>::empty()
        });
        assert(p == head + sub + tail);
        assert(head.len() == o + 5);
        assert forall|i: int|
            0 <= i < p.len() && #[trigger] p[i] is Key && p[i]->Key_1 == Direction::Press implies exists|j: int|
            i < j < p.len() && p[j] == PasteStep::Key(p[i]->Key_0, Direction::Release) by {
            if i < o + 5 {
                assert(head[i] == p[i]);
                if restore {
                    assert(head[i] == seq![
                        PasteStep::SaveClipboard,
                        PasteStep::WriteText,
                        PasteStep::Sleep(80),
                        PasteStep::Key(Key::PasteMod, Direction::Press),
                        PasteStep::Key(Key::V, Direction::Click),
                        PasteStep::Key(Key::PasteMod, Direction::Release),
                    ][i]);
                } else {
                    assert(head[i] == seq![
                        PasteStep::WriteText,
                        PasteStep::Sleep(80),
                        PasteStep::Key(Key::PasteMod, Direction::Press),
                        PasteStep::Key(Key::V, Direction::Click),
                        PasteStep::Key(Key::PasteMod, Direction::Release),
                    ][i]);
                }
                assert(i == o + 2);
                assert(p[o + 4] == head[o + 4]);
            } else if i < o + 5 + sub.len() {
                assert(p[i] == sub[i - o - 5]);
                match submit {
                    Some(sk) => {
                        assert(p[o + 7] == sub[2]);
                        match sk {
                            SubmitKey::Enter => {},
                            SubmitKey::CtrlEnter => {
                                assert(i == o + 6);
                                assert(p[o + 8] == sub[3]);
                            },
                            SubmitKey::CmdEnter => {
                                assert(i == o + 6);
                                assert(p[o + 8] == sub[3]);
                            },
                        }
                    },
                    None => {},
                }
            } else {
                assert(p[i] == tail[i - o - 5 - sub.len()]);
                if restore {
                    assert(tail =~= seq![PasteStep::Sleep(300), PasteStep::RestoreClipboard]);
                } else {
                    assert(tail =~= seq![PasteStep::Sleep(300)]);
                }
            }
        }
    }
}

} // verus!
