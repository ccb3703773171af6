//! Cleaning recognised speech: only what is a word in no language goes —
//! hesitation sounds, interjections, stutters, stray dashes, doubled spaces
//! and marks. Filler words proper ("типа", "you know") go only on request.

use vstd::prelude::*;
use crate::text::{
    append, chars_of, contains_char, eq_chars, eq_ignore_ascii_case, is_alphabetic,
    is_alphanumeric, is_uppercase, is_whitespace, join, join_chars, one_of, slice_vec,
    split_char, split_on, string_of, to_lower, to_upper, trim, trim_by, trim_chars,
    trim_set, trim_start_by, trim_start_set, eq_ascii_ci, unicode_alphabetic,
    unicode_alphanumeric, unicode_lower, unicode_upper, unicode_uppercase, unicode_whitespace,
    lemma_split_nonempty, occurs_at, find_from, next_occ, lemma_next_occ_found,
    lemma_next_occ_none,
};

verus! {

// --- the word lists ------------------------------------------------------------------

/// Interjections and hesitation sounds that recognition writes out.
pub open spec fn fillers() -> Seq<Seq<char>> {
    seq![
        "uh"@, "uhm"@, "umm"@, "uhh"@, "uhhh"@, "ehh"@, "ehm"@, "ahm"@, "hmm"@, "hm"@, "mmm"@,
        "хм"@, "хмм"@, "ммм"@, "мм"@, "эм"@, "эмм"@, "ээ"@, "эээ"@, "эх"@, "мхм"@,
    ]
}

/// Punctuation that sticks to words.
pub open spec fn punct() -> Seq<char> {
    seq![',', '.', '!', '?', ';', ':']
}

/// Filler words: real words, removed only on request.
pub open spec fn parasites() -> Seq<Seq<char>> {
    seq![
        "типа"@, "как бы"@, "короче"@, "ну вот"@, "вот это вот"@, "в общем-то"@,
        "то есть как бы"@, "собственно говоря"@, "так сказать"@, "в принципе"@,
        "you know"@, "i mean"@, "kind of"@, "sort of"@, "basically"@, "literally"@,
        "actually"@,
    ]
}

/// Dashes that recognition glues to the front of a word.
pub open spec fn dashes() -> Seq<char> {
    seq!['-', '\u{2013}', '\u{2014}']
}

fn filler_list() -> (r: Vec<Vec<char>>)
    ensures
        r@.map_values(|w: Vec<char>| w@) == fillers(),
{
    let r = vec![
        chars_of("uh"), chars_of("uhm"), chars_of("umm"), chars_of("uhh"), chars_of("uhhh"),
        chars_of("ehh"), chars_of("ehm"), chars_of("ahm"), chars_of("hmm"), chars_of("hm"),
        chars_of("mmm"), chars_of("хм"), chars_of("хмм"), chars_of("ммм"), chars_of("мм"),
        chars_of("эм"), chars_of("эмм"), chars_of("ээ"), chars_of("эээ"), chars_of("эх"),
        chars_of("мхм"),
    ];
    assert(r@.map_values(|w: Vec<char>| w@) =~= fillers());
    r
}

fn parasite_list() -> (r: Vec<Vec<char>>)
    ensures
        r@.map_values(|w: Vec<char>| w@) == parasites(),
{
    let r = vec![
        chars_of("типа"), chars_of("как бы"), chars_of("короче"), chars_of("ну вот"),
        chars_of("вот это вот"), chars_of("в общем-то"), chars_of("то есть как бы"),
        chars_of("собственно говоря"), chars_of("так сказать"), chars_of("в принципе"),
        chars_of("you know"), chars_of("i mean"), chars_of("kind of"), chars_of("sort of"),
        chars_of("basically"), chars_of("literally"), chars_of("actually"),
    ];
    assert(r@.map_values(|w: Vec<char>| w@) =~= parasites());
    r
}

fn punct_list() -> (r: Vec<char>)
    ensures
        r@ == punct(),
{
    let r = vec![',', '.', '!', '?', ';', ':'];
    assert(r@ =~= punct());
    r
}

/// Whether `w` is one of the words of `list`.
fn in_list(list: &Vec<Vec<char>>, w: &[char]) -> (r: bool)
    ensures
        r == list@.map_values(|x: Vec<char>| x@).contains(w@),
{
    let ghost views = list@.map_values(|x: Vec<char>| x@);
    let mut i: usize = 0;
    while i < list.len()
        invariant
            i <= list.len(),
            views == list@.map_values(|x: Vec<char>| x@),
            forall|j: int| 0 <= j < i ==> views[j] != w@,
        decreases list.len() - i,
    {
        if eq_chars(&list[i], w) {
            assert(views[i as int] == w@);
            return true;
        }
        i += 1;
    }
    false
}

// --- hesitation ----------------------------------------------------------------------

/// The characters of `s` other than '-'.
pub open spec fn undashed(s: Seq<char>) -> Seq<char>
    decreases s.len(),
{
    if s.len() == 0 {
        s
    } else if s.last() == '-' {
        undashed(s.drop_last())
    } else {
        undashed(s.drop_last()).push(s.last())
    }
}

/// The letters a hesitation sound is drawn out from.
pub open spec fn drawn_letter(c: char) -> bool {
    c == 'э' || c == 'а' || c == 'о' || c == 'у' || c == 'м'
}

/// A drawn-out sound: one repeated vowel (or 'м'), with or without dashes —
/// "э-э", "а-аа", "ммм". A single "а", "о" or "у" is a real word; a single
/// "э" is only a sound.
pub open spec fn hesitation(s: Seq<char>) -> bool {
    let l = undashed(s);
    &&& l.len() > 0
    &&& drawn_letter(l[0])
    &&& forall|i: int| 0 <= i < l.len() ==> #[trigger] l[i] == l[0]
    &&& (s.contains('-') || l[0] == 'э' || l.len() >= 2)
}

/// Whether a bare lower-case word is a drawn-out hesitation sound.
pub fn is_hesitation(bare: &str) -> (r: bool)
    ensures
        r == hesitation(bare@),
{
    let s = chars_of(bare);
    hesitation_chars(&s)
}

fn hesitation_chars(s: &[char]) -> (r: bool)
    ensures
        r == hesitation(s@),
{
    let mut letters: Vec<char> = Vec::new();
    let mut dash = false;
    let mut i: usize = 0;
    while i < s.len()
        invariant
            i <= s.len(),
            letters@ == undashed(s@.take(i as int)),
            dash == s@.take(i as int).contains('-'),
        decreases s.len() - i,
    {
        proof {
            assert(s@.take(i + 1).drop_last() =~= s@.take(i as int));
            if s@.take(i as int).contains('-') {
                let k = choose|k: int| 0 <= k < i && #[trigger] s@.take(i as int)[k] == '-';
                assert(s@.take(i + 1)[k] == '-');
            }
            if s@[i as int] == '-' {
                assert(s@.take(i + 1)[i as int] == '-');
            }
            if s@.take(i + 1).contains('-') {
                let k = choose|k: int| 0 <= k < i + 1 && #[trigger] s@.take(i + 1)[k] == '-';
                if k < i {
                    assert(s@.take(i as int)[k] == '-');
                }
            }
        }
        if s[i] == '-' {
            dash = true;
        } else {
            letters.push(s[i]);
        }
        i += 1;
    }
    proof {
        assert(s@.take(s@.len() as int) =~= s@);
    }
    if letters.len() == 0 {
        return false;
    }
    let first = letters[0];
    if !(first == 'э' || first == 'а' || first == 'о' || first == 'у' || first == 'м') {
        return false;
    }
    let mut j: usize = 0;
    while j < letters.len()
        invariant
            j <= letters.len(),
            letters@.len() > 0,
            letters@ == undashed(s@),
            first == letters@[0],
            forall|k: int| 0 <= k < j ==> letters@[k] == first,
        decreases letters.len() - j,
    {
        if letters[j] != first {
            assert(undashed(s@)[j as int] != undashed(s@)[0]);
            return false;
        }
        j += 1;
    }
    dash || first == 'э' || letters.len() >= 2
}

// --- dashes glued to a word ----------------------------------------------------------

/// A word that starts with dashes loses them when a letter follows; a dash
/// on its own (a real dash between words) stays.
pub open spec fn unglued_word(w: Seq<char>) -> Seq<char> {
    let st = trim_start_by(w, one_of(dashes()));
    if st.len() > 0 && unicode_alphabetic(st[0]) {
        st
    } else {
        w
    }
}

/// Every space-separated word of `t` with glued dashes removed.
pub open spec fn unglued(t: Seq<char>) -> Seq<char> {
    join(split_on(t, ' ').map_values(|w: Seq<char>| unglued_word(w)), seq![' '])
}

fn drop_glued_dashes(t: &[char]) -> (r: Vec<char>)
    ensures
        r@ == unglued(t@),
{
    let words = split_char(t, ' ');
    let set = vec!['-', '\u{2013}', '\u{2014}'];
    assert(set@ =~= dashes());
    let mut out: Vec<Vec<char>> = Vec::new();
    let mut i: usize = 0;
    while i < words.len()
        invariant
            i <= words.len(),
            set@ == dashes(),
            words@.len() == split_on(t@, ' ').len(),
            forall|k: int| 0 <= k < words@.len() ==> #[trigger] words@[k]@ == split_on(t@, ' ')[k],
            out@.len() == i,
            forall|k: int| 0 <= k < i ==> #[trigger] out@[k]@ == unglued_word(split_on(t@, ' ')[k]),
        decreases words.len() - i,
    {
        let st = trim_start_set(&words[i], &set);
        if st.len() > 0 && is_alphabetic(st[0]) {
            out.push(st);
        } else {
            let w = slice_vec(&words[i], 0, words[i].len());
            assert(words@[i as int]@.subrange(0, words@[i as int]@.len() as int) =~= words@[i as int]@);
            out.push(w);
        }
        i += 1;
    }
    let r = join_chars(&out, &[' ']);
    proof {
        assert(out@.map_values(|x: Vec<char>| x@) =~= split_on(t@, ' ').map_values(
            |w: Seq<char>| unglued_word(w),
        ));
        assert(seq![' '] =~= [' ']@);
    }
    r
}

// --- interjections and hesitation --------------------------------------------------

/// A word stripped of the punctuation around it, in lower case.
pub open spec fn bare_of(w: Seq<char>) -> Seq<char> {
    unicode_lower(trim_by(w, one_of(punct())))
}

/// An interjection or hesitation sound, whatever punctuation clings to it.
pub open spec fn filler_word(w: Seq<char>) -> bool {
    let b = bare_of(w);
    b.len() > 0 && (fillers().contains(b) || hesitation(b))
}

/// The word with its first character in upper case.
pub open spec fn capitalized(w: Seq<char>) -> Seq<char> {
    if w.len() > 0 {
        unicode_upper(w[0]) + w.skip(1)
    } else {
        w
    }
}

/// Words left after interjections go, and whether the next word must take a
/// capital: a dropped word that began with one began the phrase, and its
/// capital passes on to the next word kept.
pub open spec fn fill_fold(words: Seq<Seq<char>>) -> (Seq<Seq<char>>, bool)
    decreases words.len(),
{
    if words.len() == 0 {
        (Seq::empty(), false)
    } else {
        let (out, cap) = fill_fold(words.drop_last());
        let w = words.last();
        if filler_word(w) {
            (out, cap || (w.len() > 0 && unicode_uppercase(w[0])))
        } else if cap && w.len() > 0 {
            (out.push(capitalized(w)), false)
        } else {
            (out.push(w), cap)
        }
    }
}

/// `t` without interjections, words joined back with single spaces.
pub open spec fn without_fillers(t: Seq<char>) -> Seq<char> {
    join(fill_fold(split_on(t, ' ')).0, seq![' '])
}

fn is_filler_word(w: &[char], fill: &Vec<Vec<char>>, marks: &Vec<char>) -> (r: bool)
    requires
        fill@.map_values(|x: Vec<char>| x@) == fillers(),
        marks@ == punct(),
    ensures
        r == filler_word(w@),
{
    let stripped = trim_set(w, marks);
    let bare = to_lower(&stripped);
    bare.len() > 0 && (in_list(fill, &bare) || hesitation_chars(&bare))
}

fn drop_fillers(t: &[char]) -> (r: Vec<char>)
    ensures
        r@ == without_fillers(t@),
{
    let words = split_char(t, ' ');
    let fill = filler_list();
    let marks = punct_list();
    let ghost ws = split_on(t@, ' ');
    let mut out: Vec<Vec<char>> = Vec::new();
    let mut cap = false;
    let mut i: usize = 0;
    while i < words.len()
        invariant
            i <= words.len(),
            fill@.map_values(|x: Vec<char>| x@) == fillers(),
            marks@ == punct(),
            ws == split_on(t@, ' '),
            words@.len() == ws.len(),
            forall|k: int| 0 <= k < words@.len() ==> #[trigger] words@[k]@ == ws[k],
            out@.map_values(|x: Vec<char>| x@) == fill_fold(ws.take(i as int)).0,
            cap == fill_fold(ws.take(i as int)).1,
        decreases words.len() - i,
    {
        let w = &words[i];
        proof {
            assert(ws.take(i + 1).drop_last() =~= ws.take(i as int));
            assert(ws.take(i + 1).last() == w@);
        }
        let ghost before = out@;
        if is_filler_word(w, &fill, &marks) {
            if w.len() > 0 && is_uppercase(w[0]) {
                cap = true;
            }
        } else if cap && w.len() > 0 {
            let mut first = to_upper(w[0]);
            let rest = slice_vec(w, 1, w.len());
            append(&mut first, &rest);
            proof {
                assert(rest@ =~= w@.skip(1));
            }
            out.push(first);
            cap = false;
            proof {
                assert(out@.map_values(|x: Vec<char>| x@) =~= before.map_values(|x: Vec<char>| x@).push(
                    capitalized(w@),
                ));
            }
        } else {
            let copy = slice_vec(w, 0, w.len());
            proof {
                assert(copy@ =~= w@);
            }
            out.push(copy);
            proof {
                assert(out@.map_values(|x: Vec<char>| x@) =~= before.map_values(|x: Vec<char>| x@).push(
                    w@,
                ));
            }
        }
        i += 1;
    }
    proof {
        assert(ws.take(words@.len() as int) =~= ws);
        assert(seq![' '] =~= [' ']@);
    }
    join_chars(&out, &[' '])
}

// --- stutters ------------------------------------------------------------------------

/// The words that are not empty, in order.
pub open spec fn nonempty_words(ws: Seq<Seq<char>>) -> Seq<Seq<char>>
    decreases ws.len(),
{
    if ws.len() == 0 {
        ws
    } else if ws.last().len() > 0 {
        nonempty_words(ws.drop_last()).push(ws.last())
    } else {
        nonempty_words(ws.drop_last())
    }
}

/// Every character is a letter.
pub open spec fn all_alpha(w: Seq<char>) -> bool {
    forall|k: int| 0 <= k < w.len() ==> #[trigger] unicode_alphabetic(w[k])
}

/// How many words from `j` on satisfy `p`, one after another.
pub open spec fn run(ws: Seq<Seq<char>>, j: int, p: spec_fn(Seq<char>) -> bool) -> nat
    decreases ws.len() - j,
{
    if 0 <= j < ws.len() && p(ws[j]) {
        1 + run(ws, j + 1, p)
    } else {
        0
    }
}

/// The length of the run of equal words that starts at `i`: equal ignoring
/// ASCII case, and where that finds no repeat, equal in lower case.
pub open spec fn run_len(ws: Seq<Seq<char>>, i: int) -> nat {
    let w = ws[i];
    let c = 1 + run(ws, i + 1, |x: Seq<char>| eq_ascii_ci(x, w));
    if c == 1 {
        1 + run(ws, i + 1, |x: Seq<char>| unicode_lower(x) == unicode_lower(w))
    } else {
        c
    }
}

/// The words from `i` on with stutters collapsed: three or more equal words
/// in a row are one word; two stay, as they are often meant.
pub open spec fn destutter(ws: Seq<Seq<char>>, i: int) -> Seq<Seq<char>>
    decreases ws.len() - i,
{
    if i < 0 || i >= ws.len() {
        Seq::empty()
    } else {
        let w = ws[i];
        let c = run_len(ws, i);
        if all_alpha(w) && c >= 3 {
            let next = if i + c <= ws.len() { i + c } else { ws.len() as int };
            seq![w] + destutter(ws, next)
        } else {
            seq![w] + destutter(ws, i + 1)
        }
    }
}

/// `t` with stutters collapsed, words joined back with single spaces.
pub open spec fn without_stutters(t: Seq<char>) -> Seq<char> {
    join(destutter(nonempty_words(split_on(t, ' ')), 0), seq![' '])
}

proof fn lemma_run_exact(ws: Seq<Seq<char>>, j: int, m: int, p: spec_fn(Seq<char>) -> bool)
    requires
        0 <= j,
        0 <= m,
        j + m <= ws.len(),
        forall|k: int| j <= k < j + m ==> #[trigger] p(ws[k]),
        j + m == ws.len() || !p(ws[j + m]),
    ensures
        run(ws, j, p) == m,
    decreases m,
{
    if m > 0 {
        assert(p(ws[j]));
        lemma_run_exact(ws, j + 1, m - 1, p);
    }
}

fn all_alphabetic(w: &[char]) -> (r: bool)
    ensures
        r == all_alpha(w@),
{
    let mut k: usize = 0;
    while k < w.len()
        invariant
            k <= w.len(),
            forall|j: int| 0 <= j < k ==> #[trigger] unicode_alphabetic(w@[j]),
        decreases w.len() - k,
    {
        if !is_alphabetic(w[k]) {
            return false;
        }
        k += 1;
    }
    true
}

fn drop_empty(words: &Vec<Vec<char>>) -> (r: Vec<Vec<char>>)
    ensures
        r@.map_values(|x: Vec<char>| x@) == nonempty_words(words@.map_values(|x: Vec<char>| x@)),
{
    let ghost ws = words@.map_values(|x: Vec<char>| x@);
    let mut out: Vec<Vec<char>> = Vec::new();
    let mut i: usize = 0;
    while i < words.len()
        invariant
            i <= words.len(),
            ws == words@.map_values(|x: Vec<char>| x@),
            out@.map_values(|x: Vec<char>| x@) == nonempty_words(ws.take(i as int)),
        decreases words.len() - i,
    {
        proof {
            assert(ws.take(i + 1).drop_last() =~= ws.take(i as int));
        }
        let ghost before = out@;
        if words[i].len() > 0 {
            let w = slice_vec(&words[i], 0, words[i].len());
            proof {
                assert(w@ =~= ws[i as int]);
            }
            out.push(w);
            proof {
                assert(out@.map_values(|x: Vec<char>| x@) =~= before.map_values(|x: Vec<char>| x@).push(
                    ws[i as int],
                ));
            }
        }
        i += 1;
    }
    proof {
        assert(ws.take(words@.len() as int) =~= ws);
    }
    out
}

fn collapse_stutters(t: &[char]) -> (r: Vec<char>)
    ensures
        r@ == without_stutters(t@),
{
    let split = split_char(t, ' ');
    proof {
        assert(split@.map_values(|x: Vec<char>| x@) =~= split_on(t@, ' '));
    }
    let words = drop_empty(&split);
    let ghost ws = words@.map_values(|x: Vec<char>| x@);
    let n = words.len();
    let mut out: Vec<Vec<char>> = Vec::new();
    let mut i: usize = 0;
    while i < n
        invariant
            n == words@.len(),
            ws == words@.map_values(|x: Vec<char>| x@),
            out@.map_values(|x: Vec<char>| x@) + destutter(ws, i as int) == destutter(ws, 0),
        decreases n - i,
    {
        let w = &words[i];
        let ghost wv = w@;
        let mut step: usize = 1;
        if all_alphabetic(w) {
            let ghost pa = |x: Seq<char>| eq_ascii_ci(x, wv);
            let mut count: usize = 1;
            while i + count < n && eq_ignore_ascii_case(&words[i + count], w)
                invariant
                    i < n,
                    n == words@.len(),
                    ws == words@.map_values(|x: Vec<char>| x@),
                    1 <= count,
                    i + count <= n,
                    wv == ws[i as int],
                    w@ == wv,
                    pa == (|x: Seq<char>| eq_ascii_ci(x, wv)),
                    forall|k: int| i + 1 <= k < i + count ==> #[trigger] pa(ws[k]),
                decreases n - i - count,
            {
                proof {
                    assert(ws[i + count] == words@[i + count]@);
                    assert(pa(ws[i + count]));
                }
                count += 1;
            }
            proof {
                lemma_run_exact(ws, i + 1, count - 1, pa);
            }
            if count == 1 {
                let lw = to_lower(w);
                let ghost pl = |x: Seq<char>| unicode_lower(x) == unicode_lower(wv);
                while i + count < n && eq_chars(&to_lower(&words[i + count]), &lw)
                    invariant
                        i < n,
                        n == words@.len(),
                        ws == words@.map_values(|x: Vec<char>| x@),
                        1 <= count,
                        i + count <= n,
                        wv == ws[i as int],
                        lw@ == unicode_lower(wv),
                        pl == (|x: Seq<char>| unicode_lower(x) == unicode_lower(wv)),
                        forall|k: int| i + 1 <= k < i + count ==> #[trigger] pl(ws[k]),
                    decreases n - i - count,
                {
                    proof {
                        assert(ws[i + count] == words@[i + count]@);
                        assert(pl(ws[i + count]));
                    }
                    count += 1;
                }
                proof {
                    lemma_run_exact(ws, i + 1, count - 1, pl);
                }
            }
            proof {
                assert(count == run_len(ws, i as int));
            }
            if count >= 3 {
                step = count;
            }
        }
        let copy = slice_vec(w, 0, w.len());
        proof {
            assert(copy@ =~= wv);
        }
        let ghost before = out@;
        out.push(copy);
        proof {
            assert(out@.map_values(|x: Vec<char>| x@) =~= before.map_values(|x: Vec<char>| x@).push(wv));
            assert(destutter(ws, i as int) == seq![wv] + destutter(ws, i + step));
            assert(out@.map_values(|x: Vec<char>| x@) + destutter(ws, i + step) =~= before.map_values(
                |x: Vec<char>| x@,
            ) + destutter(ws, i as int));
        }
        i += step;
    }
    proof {
        assert(out@.map_values(|x: Vec<char>| x@) =~= destutter(ws, 0));
        assert(seq![' '] =~= [' ']@);
    }
    join_chars(&out, &[' '])
}

// --- spaces and marks -------------------------------------------------------------------

/// One pass over the characters: runs of whitespace become one space, no
/// space before a mark, a mark repeated at once is written once. The state
/// after each character: the text so far, whether whitespace is pending,
/// and the mark written last (if nothing but whitespace came after it).
pub open spec fn norm(s: Seq<char>) -> (Seq<char>, bool, Option<char>)
    decreases s.len(),
{
    if s.len() == 0 {
        (Seq::empty(), false, None)
    } else {
        let (out, space, mark) = norm(s.drop_last());
        let c = s.last();
        if unicode_whitespace(c) {
            (out, true, mark)
        } else if punct().contains(c) {
            if mark == Some(c) {
                (out, false, mark)
            } else {
                (out.push(c), false, Some(c))
            }
        } else {
            let spaced = if space && out.len() > 0 { out.push(' ') } else { out };
            (spaced.push(c), false, None)
        }
    }
}

/// Tidy text: every whitespace character in it is a single space between
/// two words — not first, not last, not before whitespace or a mark — and
/// no mark follows the same mark.
pub open spec fn tidy(s: Seq<char>) -> bool {
    &&& forall|k: int|
        0 <= k < s.len() && #[trigger] unicode_whitespace(s[k]) ==> s[k] == ' ' && 0 < k && k + 1
            < s.len() && !unicode_whitespace(s[k + 1]) && !punct().contains(s[k + 1])
    &&& forall|k: int|
        0 <= k < s.len() - 1 && punct().contains(#[trigger] s[k]) ==> s[k + 1] != s[k]
}

proof fn lemma_norm_tidy(s: Seq<char>)
    ensures
        tidy(norm(s).0),
        norm(s).0.len() > 0 ==> !unicode_whitespace(norm(s).0.last()),
        norm(s).2 is Some ==> norm(s).0.len() > 0 && norm(s).0.last() == norm(s).2->0,
        norm(s).2 is None && norm(s).0.len() > 0 ==> !punct().contains(norm(s).0.last()),
    decreases s.len(),
{
    if s.len() > 0 {
        lemma_norm_tidy(s.drop_last());
        let (out, space, mark) = norm(s.drop_last());
        let c = s.last();
        let r = norm(s).0;
        if unicode_whitespace(c) {
        } else if punct().contains(c) {
            if mark != Some(c) {
                assert forall|k: int| 0 <= k < r.len() && #[trigger] unicode_whitespace(r[k]) implies r[k]
                    == ' ' && 0 < k && k + 1 < r.len() && !unicode_whitespace(r[k + 1]) && !punct().contains(
                    r[k + 1],
                ) by {
                    assert(r[k] == out[k]);
                    if k + 1 < out.len() {
                        assert(r[k + 1] == out[k + 1]);
                    }
                }
                assert forall|k: int| 0 <= k < r.len() - 1 && punct().contains(#[trigger] r[k]) implies r[k + 1]
                    != r[k] by {
                    assert(r[k] == out[k]);
                    if k + 1 < out.len() {
                        assert(r[k + 1] == out[k + 1]);
                    }
                }
            }
        } else {
            let spaced = if space && out.len() > 0 { out.push(' ') } else { out };
            assert(r == spaced.push(c));
            assert forall|k: int| 0 <= k < r.len() && #[trigger] unicode_whitespace(r[k]) implies r[k]
                == ' ' && 0 < k && k + 1 < r.len() && !unicode_whitespace(r[k + 1]) && !punct().contains(
                r[k + 1],
            ) by {
                if k < out.len() {
                    assert(r[k] == out[k]);
                    if k + 1 < out.len() {
                        assert(r[k + 1] == out[k + 1]);
                    }
                }
            }
            assert forall|k: int| 0 <= k < r.len() - 1 && punct().contains(#[trigger] r[k]) implies r[k + 1]
                != r[k] by {
                if k < out.len() {
                    assert(r[k] == out[k]);
                    if k + 1 < out.len() {
                        assert(r[k + 1] == out[k + 1]);
                    }
                }
            }
        }
    }
}

fn normalize_spaces_and_punct(s: &[char]) -> (r: Vec<char>)
    ensures
        r@ == norm(s@).0,
        tidy(r@),
{
    let marks = punct_list();
    let mut out: Vec<char> = Vec::new();
    let mut space = false;
    let mut mark: Option<char> = None;
    let mut i: usize = 0;
    while i < s.len()
        invariant
            i <= s.len(),
            marks@ == punct(),
            (out@, space, mark) == norm(s@.take(i as int)),
        decreases s.len() - i,
    {
        proof {
            assert(s@.take(i + 1).drop_last() =~= s@.take(i as int));
        }
        let c = s[i];
        if is_whitespace(c) {
            space = true;
        } else if contains_char(&marks, c) {
            if mark == Some(c) {
                space = false;
            } else {
                out.push(c);
                mark = Some(c);
                space = false;
            }
        } else {
            if space && out.len() > 0 {
                out.push(' ');
            }
            out.push(c);
            space = false;
            mark = None;
        }
        i += 1;
    }
    proof {
        assert(s@.take(s@.len() as int) =~= s@);
        lemma_norm_tidy(s@);
    }
    out
}

// --- filler words ---------------------------------------------------------------------

/// A match of a phrase stands alone: no letter or digit right before or
/// right after it.
pub open spec fn stands_alone(lower: Seq<char>, at: int, end: int) -> bool {
    (at == 0 || !unicode_alphanumeric(lower[at - 1])) && (end >= lower.len()
        || !unicode_alphanumeric(lower[end]))
}

/// The commas right after position `i`.
pub open spec fn commas_at(text: Seq<char>, i: int) -> nat {
    crate::text::lead(text.subrange(i, text.len() as int), one_of(seq![',']))
}

/// `text` from `from` on, with every stand-alone match of `ph` in `lower`
/// cut out together with the commas right after it.
pub open spec fn cut_from(text: Seq<char>, lower: Seq<char>, ph: Seq<char>, from: int) -> Seq<char>
    decreases text.len() - from,
{
    if from < 0 || from > text.len() || ph.len() == 0 || lower.len() != text.len() {
        Seq::empty()
    } else {
        match next_occ(lower, ph, from) {
            None => text.subrange(from, text.len() as int),
            Some(at) => {
                let end = at + ph.len();
                if at < from || end > text.len() {
                    Seq::empty()
                } else if stands_alone(lower, at, end) {
                    proof {
                        crate::text::lemma_lead_bound(text.subrange(end, text.len() as int), one_of(seq![',']));
                    }
                    text.subrange(from, at) + cut_from(text, lower, ph, end + commas_at(text, end))
                } else {
                    text.subrange(from, end) + cut_from(text, lower, ph, end)
                }
            },
        }
    }
}

/// `text` with the stand-alone matches of `ph` cut out. Matches are found
/// in the lower-case text, position for position; a text whose lower case
/// differs in length is left as it is.
pub open spec fn cut_phrase(text: Seq<char>, ph: Seq<char>) -> Seq<char> {
    let lower = unicode_lower(text);
    if lower.len() != text.len() {
        text
    } else {
        cut_from(text, lower, ph, 0)
    }
}

/// `text` with the first `k` filler phrases cut out, one after another.
pub open spec fn cut_parasites(text: Seq<char>, k: int) -> Seq<char>
    decreases k,
{
    if k <= 0 {
        text
    } else {
        cut_phrase(cut_parasites(text, k - 1), parasites()[k - 1])
    }
}

/// A phrase found at `at` is a real match there.
proof fn lemma_next_occ_is_match(s: Seq<char>, p: Seq<char>, i: int, at: int)
    requires
        next_occ(s, p, i) == Some(at),
    ensures
        i <= at,
        occurs_at(s, p, at),
    decreases s.len() + 1 - i,
{
    if 0 <= i <= s.len() && !occurs_at(s, p, i) {
        lemma_next_occ_is_match(s, p, i + 1, at);
    }
}

proof fn lemma_cut_from_glued(text: Seq<char>, lower: Seq<char>, ph: Seq<char>, from: int)
    requires
        lower.len() == text.len(),
        ph.len() > 0,
        0 <= from <= text.len(),
        forall|i: int| #[trigger] occurs_at(lower, ph, i) ==> i > 0 && unicode_alphanumeric(lower[i - 1]),
    ensures
        cut_from(text, lower, ph, from) == text.subrange(from, text.len() as int),
    decreases text.len() - from,
{
    match next_occ(lower, ph, from) {
        None => {},
        Some(at) => {
            lemma_next_occ_is_match(lower, ph, from, at);
            let end = at + ph.len();
            assert(!stands_alone(lower, at, end));
            lemma_cut_from_glued(text, lower, ph, end);
            assert(text.subrange(from, end) + text.subrange(end, text.len() as int) =~= text.subrange(
                from,
                text.len() as int,
            ));
        },
    }
}

/// A filler phrase is cut only as a whole word: where every match of `ph`
/// in the lower-case text follows right after a letter or a digit (the
/// phrase is only the tail of a longer word, as «типа» in «прототипа»),
/// the text stays exactly as it was.
pub proof fn law_glued_phrase_stays(text: Seq<char>, ph: Seq<char>)
    requires
        ph.len() > 0,
        forall|i: int| #[trigger] occurs_at(unicode_lower(text), ph, i) ==> i > 0
            && unicode_alphanumeric(unicode_lower(text)[i - 1]),
    ensures
        cut_phrase(text, ph) == text,
{
    let lower = unicode_lower(text);
    if lower.len() == text.len() {
        lemma_cut_from_glued(text, lower, ph, 0);
        assert(text.subrange(0, text.len() as int) =~= text);
    }
}

/// Dropping filler words leaves a text alone where every match of every
/// filler phrase is the tail of a longer word.
pub proof fn law_glued_parasites_stay(text: Seq<char>, k: int)
    requires
        0 <= k <= parasites().len(),
        forall|j: int, i: int| 0 <= j < parasites().len() && #[trigger] occurs_at(
            unicode_lower(text),
            parasites()[j],
            i,
        ) ==> i > 0 && unicode_alphanumeric(unicode_lower(text)[i - 1]),
    ensures
        cut_parasites(text, k) == text,
    decreases k,
{
    if k > 0 {
        law_glued_parasites_stay(text, k - 1);
        let ph = parasites()[k - 1];
        assert(ph.len() > 0) by {
            reveal_strlit("типа");
            reveal_strlit("как бы");
            reveal_strlit("короче");
            reveal_strlit("ну вот");
            reveal_strlit("вот это вот");
            reveal_strlit("в общем-то");
            reveal_strlit("то есть как бы");
            reveal_strlit("собственно говоря");
            reveal_strlit("так сказать");
            reveal_strlit("в принципе");
            reveal_strlit("you know");
            reveal_strlit("i mean");
            reveal_strlit("kind of");
            reveal_strlit("sort of");
            reveal_strlit("basically");
            reveal_strlit("literally");
            reveal_strlit("actually");
        }
        assert forall|i: int| #[trigger] occurs_at(unicode_lower(text), ph, i) implies i > 0
            && unicode_alphanumeric(unicode_lower(text)[i - 1]) by {
            assert(occurs_at(unicode_lower(text), parasites()[k - 1], i));
        }
        law_glued_phrase_stays(text, ph);
    }
}

fn cut_phrase_chars(text: &[char], ph: &[char]) -> (r: Vec<char>)
    requires
        ph@.len() > 0,
    ensures
        r@ == cut_phrase(text@, ph@),
{
    let lower = to_lower(text);
    if lower.len() != text.len() {
        let r = slice_vec(text, 0, text.len());
        assert(r@ =~= text@);
        return r;
    }
    let commas = [','];
    assert(commas@ =~= seq![',']);
    let n = text.len();
    let mut out: Vec<char> = Vec::new();
    let mut from: usize = 0;
    loop
        invariant
            from <= n,
            n == text@.len(),
            lower@.len() == n,
            lower@ == unicode_lower(text@),
            ph@.len() > 0,
            commas@ == seq![','],
            out@ + cut_from(text@, lower@, ph@, from as int) == cut_from(text@, lower@, ph@, 0),
        decreases n - from,
    {
        match find_from(&lower, from, ph) {
            None => {
                proof {
                    lemma_next_occ_none(lower@, ph@, from as int);
                }
                let rest = slice_vec(text, from, n);
                append(&mut out, &rest);
                return out;
            },
            Some(at) => {
                proof {
                    lemma_next_occ_found(lower@, ph@, from as int, at as int);
                }
                let end = at + ph.len();
                let before_ok = at == 0 || !is_alphanumeric(lower[at - 1]);
                let after_ok = end >= n || !is_alphanumeric(lower[end]);
                let ghost before = out@;
                if before_ok && after_ok {
                    let piece = slice_vec(text, from, at);
                    append(&mut out, &piece);
                    let tail = crate::text::lead_set(text, end, n, &commas);
                    proof {
                        assert(out@ + cut_from(text@, lower@, ph@, (end + tail) as int) =~= before + cut_from(
                            text@,
                            lower@,
                            ph@,
                            from as int,
                        ));
                    }
                    from = end + tail;
                } else {
                    let piece = slice_vec(text, from, end);
                    append(&mut out, &piece);
                    proof {
                        assert(out@ + cut_from(text@, lower@, ph@, end as int) =~= before + cut_from(
                            text@,
                            lower@,
                            ph@,
                            from as int,
                        ));
                    }
                    from = end;
                }
            },
        }
    }
}

fn drop_parasite_words(text: &[char]) -> (r: Vec<char>)
    ensures
        r@ == cut_parasites(text@, parasites().len() as int),
{
    let list = parasite_list();
    proof {
        reveal_strlit("типа");
        reveal_strlit("как бы");
        reveal_strlit("короче");
        reveal_strlit("ну вот");
        reveal_strlit("вот это вот");
        reveal_strlit("в общем-то");
        reveal_strlit("то есть как бы");
        reveal_strlit("собственно говоря");
        reveal_strlit("так сказать");
        reveal_strlit("в принципе");
        reveal_strlit("you know");
        reveal_strlit("i mean");
        reveal_strlit("kind of");
        reveal_strlit("sort of");
        reveal_strlit("basically");
        reveal_strlit("literally");
        reveal_strlit("actually");
        assert(forall|j: int| 0 <= j < 17 ==> (#[trigger] parasites()[j]).len() > 0);
        assert(list@.map_values(|x: Vec<char>| x@).len() == list@.len());
    }
    let mut result = slice_vec(text, 0, text.len());
    assert(result@ =~= text@);
    let mut k: usize = 0;
    while k < list.len()
        invariant
            k <= list@.len(),
            list@.len() == 17,
            list@.map_values(|x: Vec<char>| x@) == parasites(),
            forall|j: int| 0 <= j < 17 ==> (#[trigger] parasites()[j]).len() > 0,
            result@ == cut_parasites(text@, k as int),
        decreases list.len() - k,
    {
        proof {
            assert(list@[k as int]@ == parasites()[k as int]);
        }
        result = cut_phrase_chars(&result, &list[k]);
        k += 1;
    }
    result
}

// --- the whole cleanup --------------------------------------------------------------

/// What cleanup makes of `text`: glued dashes, interjections and stutters go
/// (filler words too when asked), spaces and marks are tidied, the ends
/// trimmed; blank text gives an empty string.
pub open spec fn cleaned(text: Seq<char>, drop_parasites: bool) -> Seq<char> {
    if trim(text).len() == 0 {
        Seq::empty()
    } else {
        let t = without_stutters(without_fillers(unglued(text)));
        let t = if drop_parasites { cut_parasites(t, parasites().len() as int) } else { t };
        trim(norm(t).0)
    }
}

/// Cleans recognised text; filler words stay.
pub fn clean(text: &str) -> (r: String)
    ensures
        r@ == cleaned(text@, false),
        tidy(r@),
{
    clean_with(text, false)
}

/// Cleans recognised text; `drop_parasites` also cuts filler words such as
/// "типа" or "you know", with a comma right after them.
pub fn clean_with(text: &str, drop_parasites: bool) -> (r: String)
    ensures
        r@ == cleaned(text@, drop_parasites),
        tidy(r@),
{
    let s = chars_of(text);
    if trim_chars(&s).len() == 0 {
        return String::new();
    }
    let t = drop_glued_dashes(&s);
    let t = drop_fillers(&t);
    let t = collapse_stutters(&t);
    let t = if drop_parasites { drop_parasite_words(&t) } else { t };
    let t = normalize_spaces_and_punct(&t);
    let r = trim_chars(&t);
    proof {
        lemma_tidy_trimmed(t@);
    }
    string_of(&r)
}

/// Tidy text has nothing to trim.
proof fn lemma_tidy_trimmed(s: Seq<char>)
    requires
        tidy(s),
    ensures
        trim(s) == s,
{
    if s.len() > 0 {
        crate::text::lemma_lead_char(s, crate::text::ws(), 0);
        crate::text::lemma_trail_char(s, crate::text::ws(), 0);
    } else {
        crate::text::lemma_lead_char(s, crate::text::ws(), 0);
        crate::text::lemma_trail_char(s, crate::text::ws(), 0);
    }
    assert(s.skip(0) =~= s);
    assert(s.take(s.len() as int) =~= s);
}

} // verus!
