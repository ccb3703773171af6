//! Key combinations as the settings write them ("alt+space", "cmd+shift+d"):
//! reading one into modifiers and a key, and the caption the window shows
//! ("⌥ Пробел" on a Mac, "Ctrl + Пробел" elsewhere).

use vstd::prelude::*;
use crate::lang::{english, Language};
use crate::text::{
    chars_of, eq_chars, join, join_chars, split_char, split_on, string_of, to_lower, to_upper,
    trim, trim_chars, unicode_lower, unicode_upper,
};

verus! {

/// The modifier keys of a combination.
#[derive(Clone, Copy, Debug, PartialEq, Eq)]
pub struct Mods {
    pub meta: bool,
    pub alt: bool,
    pub shift: bool,
    pub ctrl: bool,
}

/// The key of a combination: a named key, a small Latin letter, a digit or a
/// function key F1 to F12.
#[derive(Clone, Copy, Debug, PartialEq, Eq)]
pub enum Key {
    Space,
    Enter,
    Tab,
    Escape,
    Backquote,
    Comma,
    Period,
    Slash,
    Semicolon,
    Quote,
    Minus,
    Equal,
    Letter(char),
    Digit(u8),
    F(u8),
}

/// A global key combination: at least one modifier and a key.
#[derive(Clone, Copy, Debug, PartialEq, Eq)]
pub struct Hotkey {
    pub mods: Mods,
    pub key: Key,
}

/// What a part of a combination names.
pub enum Part {
    Meta,
    Alt,
    Shift,
    Ctrl,
    Other,
}

/// A part of a combination as it is read: trimmed and in lower case.
pub open spec fn norm(p: Seq<char>) -> Seq<char> {
    unicode_lower(trim(p))
}

/// Which modifier a (normalised) part names, if any.
pub open spec fn part_kind(p: Seq<char>) -> Part {
    if p == "cmd"@ || p == "meta"@ || p == "command"@ || p == "super"@ {
        Part::Meta
    } else if p == "alt"@ || p == "option"@ || p == "opt"@ {
        Part::Alt
    } else if p == "shift"@ {
        Part::Shift
    } else if p == "ctrl"@ || p == "control"@ {
        Part::Ctrl
    } else {
        Part::Other
    }
}

/// The key a (normalised) part names, if it names one.
pub open spec fn key_of(k: Seq<char>) -> Option<Key> {
    if k == "space"@ || k == "пробел"@ {
        Some(Key::Space)
    } else if k == "enter"@ || k == "return"@ {
        Some(Key::Enter)
    } else if k == "tab"@ {
        Some(Key::Tab)
    } else if k == "escape"@ || k == "esc"@ {
        Some(Key::Escape)
    } else if k == "backquote"@ || k == "`"@ {
        Some(Key::Backquote)
    } else if k == "comma"@ || k == ","@ {
        Some(Key::Comma)
    } else if k == "period"@ || k == "."@ {
        Some(Key::Period)
    } else if k == "slash"@ || k == "/"@ {
        Some(Key::Slash)
    } else if k == "semicolon"@ || k == ";"@ {
        Some(Key::Semicolon)
    } else if k == "quote"@ || k == "'"@ {
        Some(Key::Quote)
    } else if k == "minus"@ || k == "-"@ {
        Some(Key::Minus)
    } else if k == "equal"@ || k == "="@ {
        Some(Key::Equal)
    } else if k.len() == 1 && 'a' <= k[0] <= 'z' {
        Some(Key::Letter(k[0]))
    } else if k.len() == 1 && '0' <= k[0] <= '9' {
        Some(Key::Digit((k[0] as int - '0' as int) as u8))
    } else if k.len() == 2 && k[0] == 'f' && '1' <= k[1] <= '9' {
        Some(Key::F((k[1] as int - '0' as int) as u8))
    } else if k.len() == 3 && k[0] == 'f' && k[1] == '1' && '0' <= k[2] <= '2' {
        Some(Key::F((10 + k[2] as int - '0' as int) as u8))
    } else {
        None
    }
}

/// No modifier.
pub open spec fn no_mods() -> Mods {
    Mods { meta: false, alt: false, shift: false, ctrl: false }
}

/// The parts read in order: each modifier is added, and each other part sets
/// the key (the last one wins, an unknown one unsets it).
pub open spec fn read_parts(parts: Seq<Seq<char>>) -> (Mods, Option<Key>)
    decreases parts.len(),
{
    if parts.len() == 0 {
        (no_mods(), None)
    } else {
        let (m, k) = read_parts(parts.drop_last());
        let p = norm(parts.last());
        match part_kind(p) {
            Part::Meta => (Mods { meta: true, ..m }, k),
            Part::Alt => (Mods { alt: true, ..m }, k),
            Part::Shift => (Mods { shift: true, ..m }, k),
            Part::Ctrl => (Mods { ctrl: true, ..m }, k),
            Part::Other => (m, key_of(p)),
        }
    }
}

/// A combination from its text, with the parts split at '+'. Without a
/// modifier a global combination would be too easy to press by chance, so at
/// least one is required.
pub open spec fn hotkey_of(text: Seq<char>) -> Option<Hotkey> {
    let (m, k) = read_parts(split_on(text, '+'));
    if k.is_some() && (m.meta || m.alt || m.shift || m.ctrl) {
        Some(Hotkey { mods: m, key: k.unwrap() })
    } else {
        None
    }
}

/// Whether a part equals a literal.
fn same_as(p: &[char], lit: &str) -> (r: bool)
    ensures
        r == (p@ == lit@),
{
    eq_chars(p, &chars_of(lit))
}

/// A part of a combination, trimmed and in lower case.
fn normalized(p: &[char]) -> (r: Vec<char>)
    ensures
        r@ == norm(p@),
{
    to_lower(&trim_chars(p))
}

/// Which modifier a normalised part names, if any.
fn kind_of(p: &[char]) -> (r: Part)
    ensures
        r == part_kind(p@),
{
    if same_as(p, "cmd") || same_as(p, "meta") || same_as(p, "command") || same_as(p, "super") {
        Part::Meta
    } else if same_as(p, "alt") || same_as(p, "option") || same_as(p, "opt") {
        Part::Alt
    } else if same_as(p, "shift") {
        Part::Shift
    } else if same_as(p, "ctrl") || same_as(p, "control") {
        Part::Ctrl
    } else {
        Part::Other
    }
}

/// The key a normalised part names.
pub fn key_code(k: &[char]) -> (r: Option<Key>)
    ensures
        r == key_of(k@),
{
    if same_as(k, "space") || same_as(k, "пробел") {
        Some(Key::Space)
    } else if same_as(k, "enter") || same_as(k, "return") {
        Some(Key::Enter)
    } else if same_as(k, "tab") {
        Some(Key::Tab)
    } else if same_as(k, "escape") || same_as(k, "esc") {
        Some(Key::Escape)
    } else if same_as(k, "backquote") || same_as(k, "`") {
        Some(Key::Backquote)
    } else if same_as(k, "comma") || same_as(k, ",") {
        Some(Key::Comma)
    } else if same_as(k, "period") || same_as(k, ".") {
        Some(Key::Period)
    } else if same_as(k, "slash") || same_as(k, "/") {
        Some(Key::Slash)
    } else if same_as(k, "semicolon") || same_as(k, ";") {
        Some(Key::Semicolon)
    } else if same_as(k, "quote") || same_as(k, "'") {
        Some(Key::Quote)
    } else if same_as(k, "minus") || same_as(k, "-") {
        Some(Key::Minus)
    } else if same_as(k, "equal") || same_as(k, "=") {
        Some(Key::Equal)
    } else if k.len() == 1 && 'a' <= k[0] && k[0] <= 'z' {
        Some(Key::Letter(k[0]))
    } else if k.len() == 1 && '0' <= k[0] && k[0] <= '9' {
        Some(Key::Digit((k[0] as u32 - '0' as u32) as u8))
    } else if k.len() == 2 && k[0] == 'f' && '1' <= k[1] && k[1] <= '9' {
        Some(Key::F((k[1] as u32 - '0' as u32) as u8))
    } else if k.len() == 3 && k[0] == 'f' && k[1] == '1' && '0' <= k[2] && k[2] <= '2' {
        Some(Key::F((10 + k[2] as u32 - '0' as u32) as u8))
    } else {
        None
    }
}

/// Reads a combination from the settings' text; the case of the letters does
/// not matter.
pub fn parse(text: &str) -> (r: Option<Hotkey>)
    ensures
        r == hotkey_of(text@),
{
    let parts = split_char(&chars_of(text), '+');
    let ghost ps = split_on(text@, '+');
    let mut mods = Mods { meta: false, alt: false, shift: false, ctrl: false };
    let mut code: Option<Key> = None;
    let mut i: usize = 0;
    while i < parts.len()
        invariant
            i <= parts@.len(),
            parts@.len() == ps.len(),
            ps == split_on(text@, '+'),
            forall|k: int| 0 <= k < parts@.len() ==> #[trigger] parts@[k]@ == ps[k],
            (mods, code) == read_parts(ps.take(i as int)),
        decreases parts.len() - i,
    {
        proof {
            assert(ps.take(i + 1).drop_last() =~= ps.take(i as int));
        }
        let p = normalized(&parts[i]);
        match kind_of(&p) {
            Part::Meta => {
                mods.meta = true;
            },
            Part::Alt => {
                mods.alt = true;
            },
            Part::Shift => {
                mods.shift = true;
            },
            Part::Ctrl => {
                mods.ctrl = true;
            },
            Part::Other => {
                code = key_code(&p);
            },
        }
        i += 1;
    }
    proof {
        assert(ps.take(ps.len() as int) =~= ps);
    }
    match code {
        Some(key) => {
            if mods.meta || mods.alt || mods.shift || mods.ctrl {
                Some(Hotkey { mods, key })
            } else {
                None
            }
        },
        None => None,
    }
}

/// The caption of one part: modifier signs on a Mac, words elsewhere; the
/// space key in the interface language; any other key with a capital first
/// letter.
pub open spec fn part_label(mac: bool, en: bool, p: Seq<char>) -> Seq<char> {
    match part_kind(p) {
        Part::Meta => if mac { "⌘"@ } else { "Win"@ },
        Part::Alt => if mac { "⌥"@ } else { "Alt"@ },
        Part::Shift => if mac { "⇧"@ } else { "Shift"@ },
        Part::Ctrl => if mac { "⌃"@ } else { "Ctrl"@ },
        Part::Other => if p == "space"@ {
            if en { english("Пробел"@) } else { "Пробел"@ }
        } else if p.len() == 0 {
            Seq::empty()
        } else {
            unicode_upper(p[0]) + p.drop_first()
        },
    }
}

/// The caption of a combination: its parts, joined with a space on a Mac and
/// with " + " elsewhere.
pub open spec fn caption(mac: bool, en: bool, text: Seq<char>) -> Seq<char> {
    join(
        split_on(text, '+').map_values(|p: Seq<char>| part_label(mac, en, norm(p))),
        if mac { " "@ } else { " + "@ },
    )
}

fn word(s: &str) -> (r: Vec<char>)
    ensures
        r@ == s@,
{
    chars_of(s)
}

/// The caption of one normalised part.
fn part_caption(mac: bool, lang: &Language, p: &[char]) -> (r: Vec<char>)
    ensures
        r@ == part_label(mac, lang.code@ == "en"@, p@),
{
    match kind_of(p) {
        Part::Meta => word(if mac { "⌘" } else { "Win" }),
        Part::Alt => word(if mac { "⌥" } else { "Alt" }),
        Part::Shift => word(if mac { "⇧" } else { "Shift" }),
        Part::Ctrl => word(if mac { "⌃" } else { "Ctrl" }),
        Part::Other => {
            if same_as(p, "space") {
                chars_of(lang.t("Пробел").as_str())
            } else if p.len() == 0 {
                Vec::new()
            } else {
                let mut r = to_upper(p[0]);
                let mut i: usize = 1;
                let ghost head = r@;
                while i < p.len()
                    invariant
                        1 <= i <= p.len(),
                        r@ == head + p@.subrange(1, i as int),
                    decreases p.len() - i,
                {
                    r.push(p[i]);
                    proof {
                        assert(head + p@.subrange(1, i + 1) =~= (head + p@.subrange(1, i as int)).push(p@[i as int]));
                    }
                    i += 1;
                }
                proof {
                    assert(p@.subrange(1, p@.len() as int) =~= p@.drop_first());
                }
                r
            }
        },
    }
}

/// The caption of a combination for the window: `mac` chooses the Mac key
/// signs, `lang` the language of the space key's name.
pub fn label(mac: bool, lang: &Language, text: &str) -> (r: String)
    ensures
        r@ == caption(mac, lang.code@ == "en"@, text@),
{
    let parts = split_char(&chars_of(text), '+');
    let ghost ps = split_on(text@, '+');
    let ghost en = lang.code@ == "en"@;
    let mut out: Vec<Vec<char>> = Vec::new();
    let mut i: usize = 0;
    while i < parts.len()
        invariant
            i <= parts@.len(),
            parts@.len() == ps.len(),
            ps == split_on(text@, '+'),
            en == (lang.code@ == "en"@),
            forall|k: int| 0 <= k < parts@.len() ==> #[trigger] parts@[k]@ == ps[k],
            out@.len() == i,
            forall|k: int| 0 <= k < i ==> #[trigger] out@[k]@ == part_label(mac, en, norm(ps[k])),
        decreases parts.len() - i,
    {
        let p = normalized(&parts[i]);
        out.push(part_caption(mac, lang, &p));
        i += 1;
    }
    let sep = word(if mac { " " } else { " + " });
    let r = join_chars(&out, &sep);
    proof {
        assert(out@.map_values(|x: Vec<char>| x@) =~= ps.map_values(|p: Seq<char>| part_label(mac, en, norm(p))));
    }
    string_of(&r)
}

} // verus!
