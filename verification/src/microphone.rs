//! Choosing the microphone: the one named in the settings when it is
//! there, else the system's default; and whether a stream opened in advance
//! can serve the next recording. The device names come from the audio
//! system, which the caller asks.

use vstd::prelude::*;
use crate::text::{chars_of, eq_chars};

verus! {

/// Which input device to open.
#[derive(Clone, Copy, Debug, PartialEq, Eq, Structural)]
pub enum Pick {
    /// The device at this position of the list.
    Named(usize),
    /// The system's default input.
    Default,
}

/// The first position of a name in the list, from `i` on.
pub open spec fn name_from(names: Seq<Seq<char>>, name: Seq<char>, i: int) -> Option<int>
    decreases names.len() - i,
{
    if i < 0 || i >= names.len() {
        None
    } else if names[i] == name {
        Some(i)
    } else {
        name_from(names, name, i + 1)
    }
}

/// The device named in the settings, the first of that name; the default
/// when none is named or no device has the name.
pub open spec fn pick_spec(names: Seq<Seq<char>>, wanted: Option<Seq<char>>) -> Pick {
    match wanted {
        Some(w) => match name_from(names, w, 0) {
            Some(i) => Pick::Named(i as usize),
            None => Pick::Default,
        },
        None => Pick::Default,
    }
}

/// The names of the devices as plain text.
pub open spec fn names_view(names: Seq<String>) -> Seq<Seq<char>> {
    names.map_values(|n: String| n@)
}

/// Picks the input device among the names the audio system lists.
pub fn pick_device(names: &[String], wanted: Option<&str>) -> (r: Pick)
    ensures
        r == pick_spec(names_view(names@), match wanted {
            Some(w) => Some(w@),
            None => None,
        }),
{
    let w = match wanted {
        Some(w) => chars_of(w),
        None => {
            return Pick::Default;
        },
    };
    let ghost nv = names_view(names@);
    let mut i: usize = 0;
    while i < names.len()
        invariant
            i <= names@.len(),
            nv == names_view(names@),
            wanted matches Some(x) && x@ == w@,
            name_from(nv, w@, 0) == name_from(nv, w@, i as int),
        decreases names.len() - i,
    {
        if eq_chars(&chars_of(names[i].as_str()), &w) {
            return Pick::Named(i);
        }
        i += 1;
    }
    Pick::Default
}

/// A stream opened in advance serves the next recording when it is not
/// recording, has not failed, was opened for the microphone now wanted, and
/// — with no microphone named — the system's default is still the device it
/// opened (headphones plugged in change it).
pub open spec fn reusable_spec(
    recording: bool,
    broken: bool,
    opened_for: Option<Seq<char>>,
    wanted: Option<Seq<char>>,
    opened_device: Seq<char>,
    default_now: Seq<char>,
) -> bool {
    !recording && !broken && opened_for == wanted && (wanted is None ==> default_now == opened_device)
}

fn same_opt(a: Option<&str>, b: Option<&str>) -> (r: bool)
    ensures
        r == ((match a {
            Some(x) => Some(x@),
            None => None,
        }) == (match b {
            Some(x) => Some(x@),
            None => None,
        })),
{
    match (a, b) {
        (Some(x), Some(y)) => eq_chars(&chars_of(x), &chars_of(y)),
        (None, None) => true,
        _ => false,
    }
}

/// Whether a stream opened in advance can serve the next recording;
/// `default_now` is the name of the system's default input now (empty when
/// there is none).
pub fn stream_reusable(
    recording: bool,
    broken: bool,
    opened_for: Option<&str>,
    wanted: Option<&str>,
    opened_device: &str,
    default_now: &str,
) -> (r: bool)
    ensures
        r == reusable_spec(
            recording,
            broken,
            match opened_for {
                Some(x) => Some(x@),
                None => None,
            },
            match wanted {
                Some(x) => Some(x@),
                None => None,
            },
            opened_device@,
            default_now@,
        ),
{
    if recording || broken || !same_opt(opened_for, wanted) {
        return false;
    }
    if wanted.is_none() && !eq_chars(&chars_of(default_now), &chars_of(opened_device)) {
        return false;
    }
    true
}

} // verus!
