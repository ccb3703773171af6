//! Sol Flow core: text cleanup, summary assembly, sync planning and merging,
//! export builders and small binary formats, with their contracts.

pub mod bytes;
pub mod cleanup;
pub mod dictation;
pub mod docx;
pub mod fetch;
pub mod history;
pub mod hotkey;
pub mod keeper;
pub mod lang;
pub mod meetings;
pub mod microphone;
pub mod models;
pub mod numbers;
pub mod paste;
pub mod pdf;
pub mod prompts;
pub mod report;
pub mod resample;
pub mod segmenter;
pub mod settings;
pub mod summary;
pub mod sync;
pub mod text;
pub mod throttle;
pub mod ttf;
pub mod wav;

use vstd::prelude::*;
use crate::meetings::{
    as_html, as_markdown, as_text, html_export, markdown_export, names_view, segments_view,
    speakers_in_range, text_export, Segment,
};
use crate::numbers::{parse_unsigned, parse_unsigned_chars};
use crate::resample::{Downsampler, DownsamplerView};
use crate::text::{chars_of, eq_chars, split_char, split_on, starts, starts_with, string_of};

verus! {

/// A streaming converter from `src` to `dst` samples per second that has seen nothing yet.
pub fn downsampler_for_test(src: usize, dst: usize) -> (r: Downsampler)
    ensures
        r.wf(),
        r@ == (DownsamplerView { src: src as nat, dst: dst as nat, made: 0, dropped: 0, kept: 0 }),
{
    Downsampler::new(src, dst)
}

/// Cleans recognised text, see [`cleanup::clean`].
pub fn cleanup_clean(text: &str) -> (r: String)
    ensures
        r@ == cleanup::cleaned(text@, false),
{
    cleanup::clean(text)
}

/// The three text exports of a meeting without summary or speaker names:
/// plain text, markdown, HTML.
pub fn export_bodies(title: &str, duration: &str, segments: &[Segment]) -> (r: (String, String, String))
    requires
        speakers_in_range(segments_view(segments@)),
    ensures
        r.0@ == text_export(title@, duration@, Seq::empty(), segments_view(segments@), Seq::empty()),
        r.1@ == markdown_export(title@, duration@, Seq::empty(), segments_view(segments@), Seq::empty()),
        r.2@ == html_export(title@, duration@, Seq::empty(), segments_view(segments@), Seq::empty()),
{
    let names: Vec<(String, String)> = Vec::new();
    proof {
        assert(names_view(names@) =~= Seq::<(Seq<char>, Seq<char>)>::empty());
        reveal_strlit("");
    }
    (
        as_text(title, duration, "", segments, &names),
        as_markdown(title, duration, "", segments, &names),
        as_html(title, duration, "", segments, &names),
    )
}

// --- the state the window shows ----------------------------------------------------------

/// No speech model is chosen or present.
pub const PHASE_NO_MODEL: u8 = 0;
/// The model is loading.
pub const PHASE_LOADING: u8 = 1;
/// Ready to dictate.
pub const PHASE_READY: u8 = 2;
/// Recording, started from the window.
pub const PHASE_REC_UI: u8 = 3;
/// Recording, started by the shortcut.
pub const PHASE_REC_HOTKEY: u8 = 4;
/// Recognising what was said.
pub const PHASE_BUSY: u8 = 5;

/// The name of a dictation phase the window knows.
pub open spec fn phase_text(phase: u8) -> Seq<char> {
    if phase == PHASE_NO_MODEL {
        "no_model"@
    } else if phase == PHASE_LOADING {
        "loading"@
    } else if phase == PHASE_READY {
        "ready"@
    } else if phase == PHASE_REC_UI || phase == PHASE_REC_HOTKEY {
        "recording"@
    } else {
        "transcribing"@
    }
}

/// The name of a dictation phase for the window.
pub fn phase_name(phase: u8) -> (r: &'static str)
    ensures
        r@ == phase_text(phase),
{
    if phase == PHASE_NO_MODEL {
        "no_model"
    } else if phase == PHASE_LOADING {
        "loading"
    } else if phase == PHASE_READY {
        "ready"
    } else if phase == PHASE_REC_UI || phase == PHASE_REC_HOTKEY {
        "recording"
    } else {
        "transcribing"
    }
}

/// Links the window may open in the browser: web pages and mail.
pub open spec fn link_allowed_spec(url: Seq<char>) -> bool {
    starts(url, "https://"@) || starts(url, "http://"@) || starts(url, "mailto:"@)
}

/// Whether a link from the window may be opened: only http(s) and mail.
pub fn link_allowed(url: &str) -> (r: bool)
    ensures
        r == link_allowed_spec(url@),
{
    let u = chars_of(url);
    starts_with(&u, &chars_of("https://")) || starts_with(&u, &chars_of("http://")) || starts_with(
        &u,
        &chars_of("mailto:"),
    )
}

// --- versions ----------------------------------------------------------------------------

/// The pieces of a version between dots and dashes.
pub open spec fn version_pieces(s: Seq<char>) -> Seq<Seq<char>>
    decreases s.len(),
{
    if s.len() == 0 {
        seq![Seq::<char>::empty()]
    } else {
        let p = version_pieces(s.drop_last());
        if s.last() == '.' || s.last() == '-' {
            p.push(Seq::<char>::empty())
        } else {
            p.update(p.len() - 1, p.last().push(s.last()))
        }
    }
}

/// The numbers of a version: the pieces that parse as `u32`, others left
/// out.
pub open spec fn version_numbers(pieces: Seq<Seq<char>>) -> Seq<int>
    decreases pieces.len(),
{
    if pieces.len() == 0 {
        Seq::empty()
    } else {
        match parse_unsigned(pieces.last(), u32::MAX as int) {
            Some(v) => version_numbers(pieces.drop_last()).push(v),
            None => version_numbers(pieces.drop_last()),
        }
    }
}

/// The numbers of a version text such as "v1.2.3".
pub open spec fn version_of(v: Seq<char>) -> Seq<int> {
    version_numbers(version_pieces(crate::text::trim_start_by(v, crate::text::one_of(seq!['v']))))
}

/// The number at `i`, zero past the end.
pub open spec fn number_at(a: Seq<int>, i: int) -> int {
    if 0 <= i < a.len() {
        a[i]
    } else {
        0
    }
}

/// Whether `a` is a later version than `b`, deciding from place `i` on.
pub open spec fn later_from(a: Seq<int>, b: Seq<int>, i: int) -> bool
    decreases (if a.len() > b.len() { a.len() } else { b.len() }) - i,
{
    if i < 0 || i >= a.len() && i >= b.len() {
        false
    } else if number_at(a, i) != number_at(b, i) {
        number_at(a, i) > number_at(b, i)
    } else {
        later_from(a, b, i + 1)
    }
}

/// Whether version `latest` is newer than `current`, comparing numbers
/// place by place (missing places count as zero).
pub open spec fn newer_spec(latest: Seq<char>, current: Seq<char>) -> bool {
    later_from(version_of(latest), version_of(current), 0)
}

fn version_parse(v: &str) -> (r: Vec<u32>)
    ensures
        r@.map_values(|x: u32| x as int) == version_of(v@),
{
    let c = chars_of(v);
    let t = crate::text::trim_start_set(&c, &['v']);
    proof {
        assert(['v']@ =~= seq!['v']);
    }
    // pieces between '.' and '-'
    let mut pieces: Vec<Vec<char>> = Vec::new();
    let mut cur: Vec<char> = Vec::new();
    let mut i: usize = 0;
    while i < t.len()
        invariant
            i <= t@.len(),
            pieces@.map_values(|x: Vec<char>| x@).push(cur@) == version_pieces(t@.take(i as int)),
        decreases t.len() - i,
    {
        proof {
            assert(t@.take(i + 1).drop_last() =~= t@.take(i as int));
        }
        let ghost before = pieces@.map_values(|x: Vec<char>| x@).push(cur@);
        if t[i] == '.' || t[i] == '-' {
            let done = cur;
            pieces.push(done);
            cur = Vec::new();
            proof {
                assert(pieces@.map_values(|x: Vec<char>| x@).push(cur@) =~= before.push(Seq::<char>::empty()));
            }
        } else {
            cur.push(t[i]);
            proof {
                assert(pieces@.map_values(|x: Vec<char>| x@).push(cur@) =~= before.update(
                    before.len() - 1,
                    before.last().push(t@[i as int]),
                ));
            }
        }
        i += 1;
    }
    let ghost last_state = pieces@.map_values(|x: Vec<char>| x@).push(cur@);
    pieces.push(cur);
    proof {
        assert(t@.take(t@.len() as int) =~= t@);
        assert(pieces@.map_values(|x: Vec<char>| x@) =~= last_state);
    }
    let ghost pv = pieces@.map_values(|x: Vec<char>| x@);
    let mut out: Vec<u32> = Vec::new();
    let mut k: usize = 0;
    while k < pieces.len()
        invariant
            k <= pieces@.len(),
            pv == pieces@.map_values(|x: Vec<char>| x@),
            out@.map_values(|x: u32| x as int) == version_numbers(pv.take(k as int)),
        decreases pieces.len() - k,
    {
        proof {
            assert(pv.take(k + 1).drop_last() =~= pv.take(k as int));
            assert(pv.take(k + 1).last() == pieces@[k as int]@);
        }
        let ghost before = out@;
        match parse_unsigned_chars(&pieces[k], 4294967295) {
            Some(v) => {
                out.push(v as u32);
                proof {
                    assert(out@.map_values(|x: u32| x as int) =~= before.map_values(|x: u32| x as int).push(
                        v as int,
                    ));
                }
            },
            None => {},
        }
        k += 1;
    }
    proof {
        assert(pv.take(pieces@.len() as int) =~= pv);
    }
    out
}

/// Whether version `latest` is newer than `current` ("1.2.3" by numbers,
/// not by text).
pub fn version_newer(latest: &str, current: &str) -> (r: bool)
    ensures
        r == newer_spec(latest@, current@),
{
    let a = version_parse(latest);
    let b = version_parse(current);
    let ghost av = a@.map_values(|x: u32| x as int);
    let ghost bv = b@.map_values(|x: u32| x as int);
    let n = if a.len() > b.len() { a.len() } else { b.len() };
    let mut i: usize = 0;
    while i < n
        invariant
            i <= n,
            n == (if a@.len() > b@.len() { a@.len() } else { b@.len() }),
            av == a@.map_values(|x: u32| x as int),
            bv == b@.map_values(|x: u32| x as int),
            av == version_of(latest@),
            bv == version_of(current@),
            later_from(av, bv, 0) == later_from(av, bv, i as int),
        decreases n - i,
    {
        let x: u32 = if i < a.len() { a[i] } else { 0 };
        let y: u32 = if i < b.len() { b[i] } else { 0 };
        proof {
            assert(x as int == number_at(av, i as int));
            assert(y as int == number_at(bv, i as int));
        }
        if x != y {
            proof {
                assert(av.len() == a@.len() && bv.len() == b@.len());
                assert(later_from(av, bv, i as int) == (x > y));
            }
            return x > y;
        }
        i += 1;
    }
    false
}

/// A version is not newer than itself.
pub proof fn law_version_not_newer_than_itself(v: Seq<char>)
    ensures
        !newer_spec(v, v),
{
    lemma_later_irreflexive(version_of(v), 0);
}

proof fn lemma_later_irreflexive(a: Seq<int>, i: int)
    ensures
        !later_from(a, a, i),
    decreases a.len() - i,
{
    if 0 <= i < a.len() {
        lemma_later_irreflexive(a, i + 1);
    }
}

/// Of two versions at most one is newer than the other.
pub proof fn law_version_newer_one_way(a: Seq<char>, b: Seq<char>)
    ensures
        !(newer_spec(a, b) && newer_spec(b, a)),
{
    lemma_later_asymmetric(version_of(a), version_of(b), 0);
}

proof fn lemma_later_asymmetric(a: Seq<int>, b: Seq<int>, i: int)
    ensures
        !(later_from(a, b, i) && later_from(b, a, i)),
    decreases (if a.len() > b.len() { a.len() } else { b.len() }) - i,
{
    if !(i < 0 || i >= a.len() && i >= b.len()) && number_at(a, i) == number_at(b, i) {
        lemma_later_asymmetric(a, b, i + 1);
    }
}

/// A Word document of a meeting without summary or speaker names.
pub fn export_docx(title: &str, duration: &str, segments: &[Segment]) -> (r: Vec<u8>)
    requires
        speakers_in_range(segments_view(segments@)),
    ensures
        r@ == docx::docx_spec(title@, duration@, segments_view(segments@), Seq::empty()),
{
    let names: Vec<(String, String)> = Vec::new();
    proof {
        assert(names_view(names@) =~= Seq::<(Seq<char>, Seq<char>)>::empty());
    }
    docx::build(title, duration, segments, &names)
}

} // verus!
