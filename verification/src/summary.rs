//! What the language model writes, read back: lines of extracts with a label
//! and a time, gathered into the sections a breakdown shows; numbered lines
//! of a translation put back in their places; long texts cut into parts.

pub mod jobs;

pub use crate::summary::jobs::{
    ask_with, classify_with, derive_with, summarize, title_with, translate_lines_with, translate_text_with,
};

use vstd::prelude::*;
use crate::numbers::{parse_unsigned, parse_unsigned_chars};
use crate::prompts::{
    ADVICE_PROMPT, CASES_PROMPT, GLOSSARY_PROMPT, GUEST_PROMPT, LETTER_MERGE_PROMPT,
    LETTER_PART_PROMPT, LETTER_PROMPT, OUTLINE_PROMPT, POST_MERGE_PROMPT, POST_WHOLE_PROMPT,
    QA_PROMPT, QUOTES_PROMPT, TASKS_PART_PROMPT, THESES_PROMPT,
};
use crate::text::{
    append, char_pos, chars_of, concat, count_char, count_chars, eq_ascii_ci,
    eq_ignore_ascii_case, find_char, join, join_chars, lead, lead_set, lines, lines_of, one_of,
    slice_vec, split_char, split_on, starts, starts_with, string_of, to_lower, trim,
    trim_by, trim_chars, trim_end_by, trim_set, trim_start_by, trim_start_set, unicode_lower,
    lemma_lead_bound, lemma_split_nonempty, ws, next_occ, find_from,
};

verus! {

// --- times ----------------------------------------------------------------------------

/// `"12:40"` or `"1:02:34"` as seconds: each part between colons, trimmed,
/// must parse as a `u32`, and the running total `total * 60 + part` must
/// stay within `u32`.
pub open spec fn clock_fold(parts: Seq<Seq<char>>) -> Option<int>
    decreases parts.len(),
{
    if parts.len() == 0 {
        Some(0)
    } else {
        match clock_fold(parts.drop_last()) {
            None => None,
            Some(t) => match parse_unsigned(trim(parts.last()), u32::MAX as int) {
                None => None,
                Some(v) => if t * 60 > u32::MAX || t * 60 + v > u32::MAX {
                    None
                } else {
                    Some(t * 60 + v)
                },
            },
        }
    }
}

/// The seconds a clock text stands for.
pub open spec fn clock_secs(text: Seq<char>) -> Option<int> {
    clock_fold(split_on(trim(text), ':'))
}

fn clock_seconds(text: &[char]) -> (r: Option<u32>)
    ensures
        match r {
            Some(v) => clock_secs(text@) == Some(v as int),
            None => clock_secs(text@) is None,
        },
{
    let t = trim_chars(text);
    let parts = split_char(&t, ':');
    let ghost ps = split_on(trim(text@), ':');
    let mut total: u32 = 0;
    let mut i: usize = 0;
    while i < parts.len()
        invariant
            i <= parts@.len(),
            parts@.len() == ps.len(),
            ps == split_on(trim(text@), ':'),
            forall|k: int| 0 <= k < parts@.len() ==> #[trigger] parts@[k]@ == ps[k],
            clock_fold(ps.take(i as int)) == Some(total as int),
        decreases parts.len() - i,
    {
        proof {
            assert(ps.take(i + 1).drop_last() =~= ps.take(i as int));
            assert(ps.take(i + 1).last() == parts@[i as int]@);
        }
        let part = trim_chars(&parts[i]);
        let v = match parse_unsigned_chars(&part, 4294967295) {
            Some(v) => v,
            None => {
                proof {
                    assert(clock_fold(ps.take(i + 1)) is None);
                    lemma_clock_none(ps, i as int + 1);
                }
                return None;
            },
        };
        if total > 71582788 || (total * 60) as u64 + v > 4294967295 {
            proof {
                assert(clock_fold(ps.take(i + 1)) is None);
                lemma_clock_none(ps, i as int + 1);
            }
            return None;
        }
        total = total * 60 + v as u32;
        i += 1;
    }
    proof {
        assert(ps.take(parts@.len() as int) =~= ps);
    }
    Some(total)
}

/// Once the running total fails, it stays failed.
proof fn lemma_clock_none(ps: Seq<Seq<char>>, k: int)
    requires
        0 <= k <= ps.len(),
        clock_fold(ps.take(k)) is None,
    ensures
        clock_fold(ps) is None,
    decreases ps.len() - k,
{
    if k < ps.len() {
        assert(ps.take(k + 1).drop_last() =~= ps.take(k));
        lemma_clock_none(ps, k + 1);
    } else {
        assert(ps.take(k) =~= ps);
    }
}

// --- one line of an extract --------------------------------------------------------------

/// List markers a line may start with.
pub open spec fn list_marks() -> Seq<char> {
    seq!['-', '•', '*', ' ']
}

/// What may stand between a leading time and the text.
pub open spec fn clock_gap() -> Seq<char> {
    seq![':', '—', '–', '-', ' ']
}

/// A line trimmed of spaces and list markers.
pub open spec fn unmarked(raw: Seq<char>) -> Seq<char> {
    trim(trim_start_by(trim(raw), one_of(list_marks())))
}

/// A line of an extract as it is kept: list marker gone, and a time the
/// model put at the start moved to the end, where readers expect it.
pub open spec fn normalized(raw: Seq<char>) -> Seq<char> {
    let line = unmarked(raw);
    if line.len() > 0 && line[0] == '[' {
        match char_pos(line, ']') {
            Some(close) => {
                let clock = line.subrange(1, close);
                if clock_secs(clock) is Some {
                    let rest = trim_start_by(
                        trim(line.subrange(close + 1, line.len() as int)),
                        one_of(clock_gap()),
                    );
                    if rest.len() > 0 && rest.last() == ']' {
                        rest
                    } else {
                        rest + seq![' ', '['] + clock + seq![']']
                    }
                } else {
                    line
                }
            },
            None => line,
        }
    } else {
        line
    }
}

fn unmark(raw: &[char]) -> (r: Vec<char>)
    ensures
        r@ == unmarked(raw@),
{
    let marks = vec!['-', '•', '*', ' '];
    assert(marks@ =~= list_marks());
    let a = trim_chars(raw);
    let b = trim_start_set(&a, &marks);
    trim_chars(&b)
}

fn normalize_line(raw: &[char]) -> (r: Vec<char>)
    ensures
        r@ == normalized(raw@),
{
    let line = unmark(raw);
    if line.len() > 0 && line[0] == '[' {
        match find_char(&line, ']') {
            Some(close) => {
                let clock = slice_vec(&line, 1, close);
                if clock_seconds(&clock).is_some() {
                    let gap = vec![':', '—', '–', '-', ' '];
                    assert(gap@ =~= clock_gap());
                    let after = slice_vec(&line, close + 1, line.len());
                    let rest = trim_start_set(&trim_chars(&after), &gap);
                    if rest.len() > 0 && rest[rest.len() - 1] == ']' {
                        return rest;
                    }
                    let mut out = rest;
                    out.push(' ');
                    out.push('[');
                    append(&mut out, &clock);
                    out.push(']');
                    proof {
                        let rv = trim_start_by(
                            trim(line@.subrange(close + 1, line@.len() as int)),
                            one_of(clock_gap()),
                        );
                        assert(out@ =~= rv + seq![' ', '['] + clock@ + seq![']']);
                    }
                    return out;
                }
                line
            },
            None => line,
        }
    } else {
        line
    }
}

/// Markup stars, underscores and spaces around a label.
pub open spec fn label_marks() -> Seq<char> {
    seq!['*', '_', ' ']
}

/// What follows a label such as "Задача:" at the start of a line (case and
/// markup stars do not matter): the label is looked for in the lower-case
/// line, position for position; a line whose lower case differs in length
/// has no label.
pub open spec fn label_rest(line: Seq<char>, label: Seq<char>) -> Option<Seq<char>> {
    let lower = unicode_lower(line);
    let skipped = lead(lower, one_of(label_marks()));
    if lower.len() != line.len() || !starts(lower.skip(skipped as int), label) {
        None
    } else {
        let after = trim_start_by(line.skip((skipped + label.len()) as int), one_of(label_marks()));
        if after.len() > 0 && (after[0] == ':' || after[0] == '—' || after[0] == '-') {
            Some(after.skip(1))
        } else {
            None
        }
    }
}

fn strip_label(line: &[char], label: &[char]) -> (r: Option<Vec<char>>)
    ensures
        match r {
            Some(v) => label_rest(line@, label@) == Some(v@),
            None => label_rest(line@, label@) is None,
        },
{
    let lower = to_lower(line);
    if lower.len() != line.len() {
        return None;
    }
    let marks = vec!['*', '_', ' '];
    assert(marks@ =~= label_marks());
    let skipped = lead_set(&lower, 0, lower.len(), &marks);
    proof {
        assert(lower@.subrange(0, lower@.len() as int) =~= lower@);
    }
    let start = slice_vec(&lower, skipped, lower.len());
    proof {
        assert(start@ =~= lower@.skip(skipped as int));
    }
    if !starts_with(&start, label) {
        return None;
    }
    let tail = slice_vec(line, skipped + label.len(), line.len());
    proof {
        assert(tail@ =~= line@.skip(skipped + label@.len()));
    }
    let after = trim_start_set(&tail, &marks);
    if after.len() > 0 && (after[0] == ':' || after[0] == '—' || after[0] == '-') {
        let r = slice_vec(&after, 1, after.len());
        proof {
            assert(r@ =~= after@.skip(1));
        }
        Some(r)
    } else {
        None
    }
}

/// The text after a label, trimmed of spaces and markup around it.
pub open spec fn label_text(rest: Seq<char>) -> Seq<char> {
    trim(trim_by(trim(rest), one_of(seq!['*', '_'])))
}

fn clean_rest(rest: &[char]) -> (r: Vec<char>)
    ensures
        r@ == label_text(rest@),
{
    let marks = vec!['*', '_'];
    assert(marks@ =~= seq!['*', '_']);
    let a = trim_chars(rest);
    let b = trim_set(&a, &marks);
    trim_chars(&b)
}

// --- pieces as lines ---------------------------------------------------------------------

/// The texts of the pieces.
pub open spec fn texts(pieces: Seq<String>) -> Seq<Seq<char>> {
    pieces.map_values(|p: String| p@)
}

/// All lines of all pieces, in order.
pub open spec fn all_lines(pieces: Seq<Seq<char>>) -> Seq<Seq<char>>
    decreases pieces.len(),
{
    if pieces.len() == 0 {
        Seq::empty()
    } else {
        all_lines(pieces.drop_last()) + lines(pieces.last())
    }
}

/// The views of a vector of character vectors.
pub open spec fn views(v: Seq<Vec<char>>) -> Seq<Seq<char>> {
    v.map_values(|x: Vec<char>| x@)
}

fn piece_lines(pieces: &[String]) -> (r: Vec<Vec<char>>)
    ensures
        views(r@) == all_lines(texts(pieces@)),
{
    let ghost ps = texts(pieces@);
    let mut out: Vec<Vec<char>> = Vec::new();
    let mut p: usize = 0;
    while p < pieces.len()
        invariant
            p <= pieces@.len(),
            ps == texts(pieces@),
            views(out@) == all_lines(ps.take(p as int)),
        decreases pieces.len() - p,
    {
        let text = chars_of(pieces[p].as_str());
        let ls = lines_of(&text);
        let ghost base = views(out@);
        let mut j: usize = 0;
        while j < ls.len()
            invariant
                j <= ls@.len(),
                ls@.len() == lines(text@).len(),
                forall|k: int| 0 <= k < ls@.len() ==> #[trigger] ls@[k]@ == lines(text@)[k],
                views(out@) == base + lines(text@).take(j as int),
            decreases ls.len() - j,
        {
            let l = slice_vec(&ls[j], 0, ls[j].len());
            proof {
                assert(l@ =~= ls@[j as int]@);
            }
            let ghost before = out@;
            out.push(l);
            proof {
                assert(views(out@) =~= views(before).push(l@));
                assert(lines(text@).take(j + 1) =~= lines(text@).take(j as int).push(l@));
            }
            j += 1;
        }
        proof {
            assert(lines(text@).take(ls@.len() as int) =~= lines(text@));
            assert(ps.take(p + 1).drop_last() =~= ps.take(p as int));
            assert(ps.take(p + 1).last() == text@);
        }
        p += 1;
    }
    proof {
        assert(ps.take(pieces@.len() as int) =~= ps);
    }
    out
}

// --- lists of labelled lines ---------------------------------------------------------------

/// Some kept item has the same lower case as `key`.
pub open spec fn seen_lower(items: Seq<Seq<char>>, key: Seq<char>) -> bool {
    exists|k: int| 0 <= k < items.len() && unicode_lower(#[trigger] items[k]) == key
}

/// The lines that carry `label`, as a flat list without repeats (case does
/// not matter); "нет" is no item.
pub open spec fn labeled_fold(ls: Seq<Seq<char>>, label: Seq<char>) -> Seq<Seq<char>>
    decreases ls.len(),
{
    if ls.len() == 0 {
        Seq::empty()
    } else {
        let out = labeled_fold(ls.drop_last(), label);
        match label_rest(normalized(ls.last()), label) {
            None => out,
            Some(rest) => {
                let r = label_text(rest);
                if r.len() == 0 || eq_ascii_ci(r, "нет"@) || seen_lower(out, unicode_lower(r)) {
                    out
                } else {
                    out.push(r)
                }
            },
        }
    }
}

/// Whether some item of `items` has `key` as its lower case.
fn has_lower(items: &Vec<Vec<char>>, key: &[char]) -> (r: bool)
    ensures
        r == seen_lower(views(items@), key@),
{
    let mut i: usize = 0;
    while i < items.len()
        invariant
            i <= items@.len(),
            forall|k: int| 0 <= k < i ==> unicode_lower(#[trigger] views(items@)[k]) != key@,
        decreases items.len() - i,
    {
        let l = to_lower(&items[i]);
        if crate::text::eq_chars(&l, key) {
            proof {
                assert(unicode_lower(views(items@)[i as int]) == key@);
            }
            return true;
        }
        i += 1;
    }
    false
}

fn labeled_list(ls: &Vec<Vec<char>>, label: &[char]) -> (r: Vec<Vec<char>>)
    ensures
        views(r@) == labeled_fold(views(ls@), label@),
{
    let no = chars_of("нет");
    let ghost lv = views(ls@);
    let mut out: Vec<Vec<char>> = Vec::new();
    let mut i: usize = 0;
    while i < ls.len()
        invariant
            i <= ls@.len(),
            lv == views(ls@),
            no@ == "нет"@,
            views(out@) == labeled_fold(lv.take(i as int), label@),
        decreases ls.len() - i,
    {
        proof {
            assert(lv.take(i + 1).drop_last() =~= lv.take(i as int));
            assert(lv.take(i + 1).last() == ls@[i as int]@);
        }
        let line = normalize_line(&ls[i]);
        match strip_label(&line, label) {
            None => {},
            Some(rest) => {
                let r = clean_rest(&rest);
                let key = to_lower(&r);
                if r.len() == 0 || eq_ignore_ascii_case(&r, &no) || has_lower(&out, &key) {
                } else {
                    let ghost before = out@;
                    out.push(r);
                    proof {
                        assert(views(out@) =~= views(before).push(label_text(rest@)));
                    }
                }
            },
        }
        i += 1;
    }
    proof {
        assert(lv.take(ls@.len() as int) =~= lv);
    }
    out
}

/// At most the first `n` items.
pub open spec fn first_n(items: Seq<Seq<char>>, n: int) -> Seq<Seq<char>> {
    if items.len() <= n {
        items
    } else {
        items.take(n)
    }
}

fn take(items: Vec<Vec<char>>, n: usize) -> (r: Vec<Vec<char>>)
    ensures
        views(r@) == first_n(views(items@), n as int),
{
    let mut out: Vec<Vec<char>> = Vec::new();
    let mut i: usize = 0;
    while i < items.len() && i < n
        invariant
            i <= items@.len(),
            i <= n,
            views(out@) == views(items@).take(i as int),
        decreases items.len() - i,
    {
        let c = slice_vec(&items[i], 0, items[i].len());
        proof {
            assert(c@ =~= items@[i as int]@);
        }
        let ghost before = out@;
        out.push(c);
        proof {
            assert(views(out@) =~= views(before).push(c@));
            assert(views(items@).take(i + 1) =~= views(items@).take(i as int).push(c@));
        }
        i += 1;
    }
    proof {
        assert(views(items@).take(items@.len() as int) =~= views(items@));
    }
    out
}

/// A list of items as dashed lines; an empty list reads "- нет".
pub open spec fn bulleted(items: Seq<Seq<char>>) -> Seq<char> {
    if items.len() == 0 {
        "- нет"@
    } else {
        join(items.map_values(|i: Seq<char>| "- "@ + i), "\n"@)
    }
}

fn bullets(items: &Vec<Vec<char>>) -> (r: Vec<char>)
    ensures
        r@ == bulleted(views(items@)),
{
    if items.len() == 0 {
        return chars_of("- нет");
    }
    let dash = chars_of("- ");
    let mut lines: Vec<Vec<char>> = Vec::new();
    let mut i: usize = 0;
    while i < items.len()
        invariant
            i <= items@.len(),
            dash@ == "- "@,
            lines@.len() == i,
            forall|k: int| 0 <= k < i ==> (#[trigger] lines@[k])@ == "- "@ + items@[k]@,
        decreases items.len() - i,
    {
        let l = concat(&dash, &items[i]);
        lines.push(l);
        i += 1;
    }
    proof {
        assert(views(lines@) =~= views(items@).map_values(|x: Seq<char>| "- "@ + x));
    }
    let nl = chars_of("\n");
    join_chars(&lines, &nl)
}

// --- the breakdowns gathered by code -------------------------------------------------------

fn labeled_bullets(ls: &Vec<Vec<char>>, label: &str, n: usize) -> (r: Vec<char>)
    ensures
        r@ == bulleted(first_n(labeled_fold(views(ls@), label@), n as int)),
{
    let l = chars_of(label);
    let items = labeled_list(ls, &l);
    let items = take(items, n);
    bullets(&items)
}

/// Main points: lines labelled "Тезис", at most twenty.
pub open spec fn theses(pieces: Seq<Seq<char>>) -> Seq<char> {
    bulleted(first_n(labeled_fold(all_lines(pieces), "тезис"@), 20))
}

/// Advice: lines labelled "Совет", at most sixteen.
pub open spec fn advice(pieces: Seq<Seq<char>>) -> Seq<char> {
    bulleted(first_n(labeled_fold(all_lines(pieces), "совет"@), 16))
}

/// Facts about the guest: lines labelled "Факт", at most fifteen.
pub open spec fn guest(pieces: Seq<Seq<char>>) -> Seq<char> {
    bulleted(first_n(labeled_fold(all_lines(pieces), "факт"@), 15))
}

/// Terms: lines labelled "Термин", at most twenty.
pub open spec fn glossary(pieces: Seq<Seq<char>>) -> Seq<char> {
    bulleted(first_n(labeled_fold(all_lines(pieces), "термин"@), 20))
}

/// Cases and figures, twelve of each at most, under their two headings.
pub open spec fn cases(pieces: Seq<Seq<char>>) -> Seq<char> {
    "## Кейсы\n"@ + bulleted(first_n(labeled_fold(all_lines(pieces), "кейс"@), 12))
        + "\n## Цифры\n"@ + bulleted(first_n(labeled_fold(all_lines(pieces), "цифра"@), 12))
}

/// A text the model wrote whole (a letter, a post): the pieces joined by
/// line breaks and trimmed.
pub open spec fn plain(pieces: Seq<Seq<char>>) -> Seq<char> {
    trim(join(pieces, "\n"@))
}

fn piece_chars(pieces: &[String]) -> (r: Vec<Vec<char>>)
    ensures
        views(r@) == texts(pieces@),
{
    let mut out: Vec<Vec<char>> = Vec::new();
    let mut i: usize = 0;
    while i < pieces.len()
        invariant
            i <= pieces@.len(),
            out@.len() == i,
            forall|k: int| 0 <= k < i ==> (#[trigger] out@[k])@ == pieces@[k]@,
        decreases pieces.len() - i,
    {
        out.push(chars_of(pieces[i].as_str()));
        i += 1;
    }
    proof {
        assert(views(out@) =~= texts(pieces@));
    }
    out
}

/// The pieces as one text.
pub fn assemble_plain(pieces: &[String]) -> (r: String)
    ensures
        r@ == plain(texts(pieces@)),
{
    let ps = piece_chars(pieces);
    let nl = chars_of("\n");
    let joined = join_chars(&ps, &nl);
    string_of(&trim_chars(&joined))
}

/// The main points of a recording as a list.
pub fn assemble_theses(pieces: &[String]) -> (r: String)
    ensures
        r@ == theses(texts(pieces@)),
{
    let ls = piece_lines(pieces);
    string_of(&labeled_bullets(&ls, "тезис", 20))
}

/// The advice given in a recording as a list.
pub fn assemble_advice(pieces: &[String]) -> (r: String)
    ensures
        r@ == advice(texts(pieces@)),
{
    let ls = piece_lines(pieces);
    string_of(&labeled_bullets(&ls, "совет", 16))
}

/// What became known of the guest, as a list.
pub fn assemble_guest(pieces: &[String]) -> (r: String)
    ensures
        r@ == guest(texts(pieces@)),
{
    let ls = piece_lines(pieces);
    string_of(&labeled_bullets(&ls, "факт", 15))
}

/// The terms that need explaining, as a list.
pub fn assemble_glossary(pieces: &[String]) -> (r: String)
    ensures
        r@ == glossary(texts(pieces@)),
{
    let ls = piece_lines(pieces);
    string_of(&labeled_bullets(&ls, "термин", 20))
}

/// Cases and figures under two headings.
pub fn assemble_cases(pieces: &[String]) -> (r: String)
    ensures
        r@ == cases(texts(pieces@)),
{
    let ls = piece_lines(pieces);
    let mut out = chars_of("## Кейсы\n");
    append(&mut out, &labeled_bullets(&ls, "кейс", 12));
    append(&mut out, &chars_of("\n## Цифры\n"));
    append(&mut out, &labeled_bullets(&ls, "цифра", 12));
    string_of(&out)
}

// --- quotes ---------------------------------------------------------------------------------

/// A line that holds a quotation: a «, or at least two straight quotes.
pub open spec fn quoted(line: Seq<char>) -> bool {
    line.contains('«') || count_char(line, '"') >= 2
}

/// Quotations the model wrote without a label, added to `init` without
/// repeats (case does not matter).
pub open spec fn quotes_fold(ls: Seq<Seq<char>>, init: Seq<Seq<char>>) -> Seq<Seq<char>>
    decreases ls.len(),
{
    if ls.len() == 0 {
        init
    } else {
        let out = quotes_fold(ls.drop_last(), init);
        let line = normalized(ls.last());
        if !quoted(line) || eq_ascii_ci(line, "нет"@) || seen_lower(out, unicode_lower(line)) {
            out
        } else {
            out.push(line)
        }
    }
}

/// Quotations: labelled "Цитата", then quoted lines without a label; at
/// most twelve.
pub open spec fn quotes(pieces: Seq<Seq<char>>) -> Seq<char> {
    let ls = all_lines(pieces);
    bulleted(first_n(quotes_fold(ls, labeled_fold(ls, "цитата"@)), 12))
}

/// The quotations of a recording as a list.
pub fn assemble_quotes(pieces: &[String]) -> (r: String)
    ensures
        r@ == quotes(texts(pieces@)),
{
    let ls = piece_lines(pieces);
    let label = chars_of("цитата");
    let mut items = labeled_list(&ls, &label);
    let no = chars_of("нет");
    let ghost lv = views(ls@);
    let ghost init = views(items@);
    let mut i: usize = 0;
    while i < ls.len()
        invariant
            i <= ls@.len(),
            lv == views(ls@),
            no@ == "нет"@,
            views(items@) == quotes_fold(lv.take(i as int), init),
        decreases ls.len() - i,
    {
        proof {
            assert(lv.take(i + 1).drop_last() =~= lv.take(i as int));
            assert(lv.take(i + 1).last() == ls@[i as int]@);
        }
        let line = normalize_line(&ls[i]);
        let has_quote = crate::text::contains_char(&line, '«') || count_chars(&line, '"') >= 2;
        if has_quote && !eq_ignore_ascii_case(&line, &no) {
            let key = to_lower(&line);
            if !has_lower(&items, &key) {
                let ghost before = items@;
                items.push(line);
                proof {
                    assert(views(items@) =~= views(before).push(normalized(lv[i as int])));
                }
            }
        }
        i += 1;
    }
    proof {
        assert(lv.take(ls@.len() as int) =~= lv);
    }
    let items = take(items, 12);
    string_of(&bullets(&items))
}

// --- questions and answers -------------------------------------------------------------------

/// Questions in order as items, each answer on a line under its question;
/// a question asked again is dropped, an answer before any question too.
pub open spec fn qa_fold(ls: Seq<Seq<char>>) -> (Seq<Seq<char>>, Seq<Seq<char>>)
    decreases ls.len(),
{
    if ls.len() == 0 {
        (Seq::empty(), Seq::empty())
    } else {
        let (out, seen) = qa_fold(ls.drop_last());
        let line = normalized(ls.last());
        match label_rest(line, "вопрос"@) {
            Some(q) => {
                let q = label_text(q);
                if q.len() == 0 || seen.contains(unicode_lower(q)) {
                    (out, seen)
                } else {
                    (out.push("- "@ + q), seen.push(unicode_lower(q)))
                }
            },
            None => match label_rest(line, "ответ"@) {
                Some(a) => {
                    let a = label_text(a);
                    if a.len() > 0 && out.len() > 0 {
                        (out.push("Ответ: "@ + a), seen)
                    } else {
                        (out, seen)
                    }
                },
                None => (out, seen),
            },
        }
    }
}

/// The questions and answers of a recording.
pub open spec fn qa(pieces: Seq<Seq<char>>) -> Seq<char> {
    let out = qa_fold(all_lines(pieces)).0;
    if out.len() == 0 {
        "- нет"@
    } else {
        join(out, "\n"@)
    }
}

fn in_views(list: &Vec<Vec<char>>, w: &[char]) -> (r: bool)
    ensures
        r == views(list@).contains(w@),
{
    let mut i: usize = 0;
    while i < list.len()
        invariant
            i <= list@.len(),
            forall|j: int| 0 <= j < i ==> views(list@)[j] != w@,
        decreases list.len() - i,
    {
        if crate::text::eq_chars(&list[i], w) {
            assert(views(list@)[i as int] == w@);
            return true;
        }
        i += 1;
    }
    false
}

/// Questions and answers in the order they came.
pub fn assemble_qa(pieces: &[String]) -> (r: String)
    ensures
        r@ == qa(texts(pieces@)),
{
    let ls = piece_lines(pieces);
    let ghost lv = views(ls@);
    let question = chars_of("вопрос");
    let answer = chars_of("ответ");
    let dash = chars_of("- ");
    let answered = chars_of("Ответ: ");
    let mut out: Vec<Vec<char>> = Vec::new();
    let mut seen: Vec<Vec<char>> = Vec::new();
    let mut i: usize = 0;
    while i < ls.len()
        invariant
            i <= ls@.len(),
            lv == views(ls@),
            question@ == "вопрос"@,
            answer@ == "ответ"@,
            dash@ == "- "@,
            answered@ == "Ответ: "@,
            (views(out@), views(seen@)) == qa_fold(lv.take(i as int)),
        decreases ls.len() - i,
    {
        proof {
            assert(lv.take(i + 1).drop_last() =~= lv.take(i as int));
            assert(lv.take(i + 1).last() == ls@[i as int]@);
        }
        let line = normalize_line(&ls[i]);
        match strip_label(&line, &question) {
            Some(q) => {
                let q = clean_rest(&q);
                let key = to_lower(&q);
                if q.len() > 0 && !in_views(&seen, &key) {
                    let ghost (o0, s0) = (out@, seen@);
                    seen.push(key);
                    out.push(concat(&dash, &q));
                    proof {
                        assert(views(out@) =~= views(o0).push("- "@ + q@));
                        assert(views(seen@) =~= views(s0).push(unicode_lower(q@)));
                    }
                }
            },
            None => match strip_label(&line, &answer) {
                Some(a) => {
                    let a = clean_rest(&a);
                    if a.len() > 0 && out.len() > 0 {
                        let ghost o0 = out@;
                        out.push(concat(&answered, &a));
                        proof {
                            assert(views(out@) =~= views(o0).push("Ответ: "@ + a@));
                        }
                    }
                },
                None => {},
            },
        }
        i += 1;
    }
    proof {
        assert(lv.take(ls@.len() as int) =~= lv);
    }
    if out.len() == 0 {
        return string_of(&chars_of("- нет"));
    }
    string_of(&join_chars(&out, &chars_of("\n")))
}

// --- decisions, tasks, open questions -------------------------------------------------------

/// Which section a line belongs to, and its text: decisions first, then
/// tasks, then open questions.
pub open spec fn task_slot(line: Seq<char>) -> Option<(int, Seq<char>)> {
    match label_rest(line, "решение"@) {
        Some(r) => Some((0, r)),
        None => match label_rest(line, "задача"@) {
            Some(r) => Some((1, r)),
            None => match label_rest(line, "вопрос"@) {
                Some(r) => Some((2, r)),
                None => None,
            },
        },
    }
}

/// The three sections, filled line by line without repeats (case does not
/// matter); "нет" is no item.
pub open spec fn tasks_fold(ls: Seq<Seq<char>>) -> Seq<Seq<Seq<char>>>
    decreases ls.len(),
{
    if ls.len() == 0 {
        seq![Seq::empty(), Seq::empty(), Seq::empty()]
    } else {
        let g = tasks_fold(ls.drop_last());
        match task_slot(normalized(ls.last())) {
            None => g,
            Some((slot, r)) => {
                let r = label_text(r);
                if r.len() == 0 || eq_ascii_ci(r, "нет"@) || seen_lower(g[slot], unicode_lower(r)) {
                    g
                } else {
                    g.update(slot, g[slot].push(r))
                }
            },
        }
    }
}

/// A section: its heading, then its items, or "- нет" when it has none.
pub open spec fn section(title: Seq<char>, items: Seq<Seq<char>>) -> Seq<char> {
    "## "@ + title + "\n"@ + (if items.len() == 0 { "- нет\n"@ } else { Seq::empty() })
        + crate::text::flatten(items.map_values(|i: Seq<char>| "- "@ + i + "\n"@))
}

/// Decisions, tasks and open questions under their headings.
pub open spec fn tasks(pieces: Seq<Seq<char>>) -> Seq<char> {
    let g = tasks_fold(all_lines(pieces));
    trim_end_by(
        section("Решения"@, g[0]) + section("Задачи"@, g[1]) + section("Открытые вопросы"@, g[2]),
        ws(),
    )
}

fn write_section(out: &mut Vec<char>, title: &str, items: &Vec<Vec<char>>)
    ensures
        final(out)@ == old(out)@ + section(title@, views(items@)),
{
    append(out, &chars_of("## "));
    append(out, &chars_of(title));
    append(out, &chars_of("\n"));
    if items.len() == 0 {
        append(out, &chars_of("- нет\n"));
    }
    let ghost start = out@;
    let ghost iv = views(items@).map_values(|i: Seq<char>| "- "@ + i + "\n"@);
    let mut k: usize = 0;
    while k < items.len()
        invariant
            k <= items@.len(),
            iv == views(items@).map_values(|i: Seq<char>| "- "@ + i + "\n"@),
            out@ == start + crate::text::flatten(iv.take(k as int)),
        decreases items.len() - k,
    {
        proof {
            assert(iv.take(k + 1).drop_last() =~= iv.take(k as int));
        }
        append(out, &chars_of("- "));
        append(out, &items[k]);
        append(out, &chars_of("\n"));
        proof {
            assert(out@ =~= start + crate::text::flatten(iv.take(k + 1)));
        }
        k += 1;
    }
    proof {
        assert(iv.take(items@.len() as int) =~= iv);
        assert(out@ =~= old(out)@ + section(title@, views(items@)));
    }
}

/// Decisions, tasks and open questions, each in its section.
pub fn assemble_tasks(pieces: &[String]) -> (r: String)
    ensures
        r@ == tasks(texts(pieces@)),
{
    let ls = piece_lines(pieces);
    let ghost lv = views(ls@);
    let decision = chars_of("решение");
    let task = chars_of("задача");
    let question = chars_of("вопрос");
    let no = chars_of("нет");
    let mut g0: Vec<Vec<char>> = Vec::new();
    let mut g1: Vec<Vec<char>> = Vec::new();
    let mut g2: Vec<Vec<char>> = Vec::new();
    proof {
        assert(views(g0@) =~= Seq::<Seq<char>>::empty());
        assert(views(g1@) =~= Seq::<Seq<char>>::empty());
        assert(views(g2@) =~= Seq::<Seq<char>>::empty());
        assert(lv.take(0) =~= Seq::<Seq<char>>::empty());
    }
    let mut i: usize = 0;
    while i < ls.len()
        invariant
            i <= ls@.len(),
            lv == views(ls@),
            decision@ == "решение"@,
            task@ == "задача"@,
            question@ == "вопрос"@,
            no@ == "нет"@,
            seq![views(g0@), views(g1@), views(g2@)] == tasks_fold(lv.take(i as int)),
        decreases ls.len() - i,
    {
        proof {
            assert(lv.take(i + 1).drop_last() =~= lv.take(i as int));
            assert(lv.take(i + 1).last() == ls@[i as int]@);
        }
        let line = normalize_line(&ls[i]);
        let (slot, rest): (usize, Vec<char>) = match strip_label(&line, &decision) {
            Some(r) => (0, r),
            None => match strip_label(&line, &task) {
                Some(r) => (1, r),
                None => match strip_label(&line, &question) {
                    Some(r) => (2, r),
                    None => {
                        i += 1;
                        continue;
                    },
                },
            },
        };
        proof {
            assert(task_slot(line@) == Some((slot as int, rest@)));
        }
        let r = clean_rest(&rest);
        let key = to_lower(&r);
        if r.len() > 0 && !eq_ignore_ascii_case(&r, &no) {
            let ghost before = seq![views(g0@), views(g1@), views(g2@)];
            if slot == 0 {
                if !has_lower(&g0, &key) {
                    g0.push(r);
                    proof {
                        assert(views(g0@) =~= before[0].push(label_text(rest@)));
                        assert(seq![views(g0@), views(g1@), views(g2@)] =~= before.update(
                            0,
                            before[0].push(label_text(rest@)),
                        ));
                    }
                }
            } else if slot == 1 {
                if !has_lower(&g1, &key) {
                    g1.push(r);
                    proof {
                        assert(views(g1@) =~= before[1].push(label_text(rest@)));
                        assert(seq![views(g0@), views(g1@), views(g2@)] =~= before.update(
                            1,
                            before[1].push(label_text(rest@)),
                        ));
                    }
                }
            } else {
                if !has_lower(&g2, &key) {
                    g2.push(r);
                    proof {
                        assert(views(g2@) =~= before[2].push(label_text(rest@)));
                        assert(seq![views(g0@), views(g1@), views(g2@)] =~= before.update(
                            2,
                            before[2].push(label_text(rest@)),
                        ));
                    }
                }
            }
        }
        i += 1;
    }
    proof {
        assert(lv.take(ls@.len() as int) =~= lv);
    }
    let mut out: Vec<char> = Vec::new();
    write_section(&mut out, "Решения", &g0);
    write_section(&mut out, "Задачи", &g1);
    write_section(&mut out, "Открытые вопросы", &g2);
    proof {
        assert(out@ =~= section("Решения"@, views(g0@)) + section("Задачи"@, views(g1@)) + section(
            "Открытые вопросы"@,
            views(g2@),
        ));
    }
    let end = crate::text::trail_ws(&out, 0, out.len());
    proof {
        assert(out@.subrange(0, out@.len() as int) =~= out@);
    }
    let r = slice_vec(&out, 0, out.len() - end);
    string_of(&r)
}

// --- outline -------------------------------------------------------------------------------

/// What may stand between a topic's time and its title.
pub open spec fn topic_gap() -> Seq<char> {
    seq!['–', '—', '-', ' ']
}

/// A topic line "[12:40] title — what was said": its time in seconds and
/// the line as it is shown.
pub open spec fn outline_row(line: Seq<char>) -> Option<(int, Seq<char>)> {
    let l = unmarked(line);
    match char_pos(l, ']') {
        None => None,
        Some(close) => if !(l.len() > 0 && l[0] == '[') {
            None
        } else {
            match clock_secs(l.subrange(1, close)) {
                None => None,
                Some(secs) => {
                    let body = trim_start_by(trim(l.subrange(close + 1, l.len() as int)), one_of(topic_gap()));
                    if body.len() == 0 {
                        None
                    } else {
                        Some((secs, seq!['['] + l.subrange(1, close) + seq![']', ' '] + body))
                    }
                },
            }
        },
    }
}

/// The topic lines among `ls`, in order.
pub open spec fn outline_rows(ls: Seq<Seq<char>>) -> Seq<(int, Seq<char>)>
    decreases ls.len(),
{
    if ls.len() == 0 {
        Seq::empty()
    } else {
        match outline_row(ls.last()) {
            Some(r) => outline_rows(ls.drop_last()).push(r),
            None => outline_rows(ls.drop_last()),
        }
    }
}

/// `x` put into a list sorted by time, after every row with the same time.
pub open spec fn insert_row(s: Seq<(int, Seq<char>)>, x: (int, Seq<char>)) -> Seq<(int, Seq<char>)>
    decreases s.len(),
{
    if s.len() == 0 {
        seq![x]
    } else if s[0].0 > x.0 {
        seq![x] + s
    } else {
        seq![s[0]] + insert_row(s.drop_first(), x)
    }
}

/// Rows sorted by time; rows with the same time keep their order.
pub open spec fn sort_rows(s: Seq<(int, Seq<char>)>) -> Seq<(int, Seq<char>)>
    decreases s.len(),
{
    if s.len() == 0 {
        s
    } else {
        insert_row(sort_rows(s.drop_last()), s.last())
    }
}

/// The gap, in seconds, under which a topic is glued to the one before.
pub open spec fn min_gap() -> int {
    180
}

/// Topics kept from sorted rows: one closer than three minutes to the last
/// kept is dropped, and no more than thirty are kept. The texts kept and
/// their times.
pub open spec fn thin_rows(rows: Seq<(int, Seq<char>)>) -> (Seq<Seq<char>>, Seq<int>)
    decreases rows.len(),
{
    if rows.len() == 0 {
        (Seq::empty(), Seq::empty())
    } else {
        let (out, times) = thin_rows(rows.drop_last());
        let (secs, text) = rows.last();
        if out.len() >= 30 || (times.len() > 0 && secs < times.last() + min_gap()) {
            (out, times)
        } else {
            (out.push(text), times.push(secs))
        }
    }
}

/// The outline of a recording, one topic per line.
pub open spec fn outline(pieces: Seq<Seq<char>>) -> Seq<char> {
    join(thin_rows(sort_rows(outline_rows(all_lines(pieces)))).0, "\n"@)
}

/// The rows as plain values.
pub open spec fn rows_view(v: Seq<(u32, Vec<char>)>) -> Seq<(int, Seq<char>)> {
    v.map_values(|r: (u32, Vec<char>)| (r.0 as int, r.1@))
}

proof fn lemma_insert_row(s: Seq<(int, Seq<char>)>, x: (int, Seq<char>), j: int)
    requires
        0 <= j <= s.len(),
        forall|k: int| 0 <= k < j ==> (#[trigger] s[k]).0 <= x.0,
        j == s.len() || s[j].0 > x.0,
    ensures
        insert_row(s, x) == s.insert(j, x),
    decreases s.len(),
{
    if s.len() > 0 {
        if j > 0 {
            assert(s[0].0 <= x.0);
            assert forall|k: int| 0 <= k < j - 1 implies (#[trigger] s.drop_first()[k]).0 <= x.0 by {
                assert(s.drop_first()[k] == s[k + 1]);
            }
            if j < s.len() {
                assert(s.drop_first()[j - 1] == s[j]);
            }
            lemma_insert_row(s.drop_first(), x, j - 1);
            assert(seq![s[0]] + s.drop_first().insert(j - 1, x) =~= s.insert(j, x));
        } else {
            assert(seq![x] + s =~= s.insert(0, x));
        }
    } else {
        assert(seq![x] =~= s.insert(0, x));
    }
}

fn outline_row_of(line: &[char]) -> (r: Option<(u32, Vec<char>)>)
    ensures
        match r {
            Some(v) => outline_row(line@) == Some((v.0 as int, v.1@)),
            None => outline_row(line@) is None,
        },
{
    let l = unmark(line);
    let close = match find_char(&l, ']') {
        Some(c) => c,
        None => return None,
    };
    if !(l.len() > 0 && l[0] == '[') {
        return None;
    }
    let clock = slice_vec(&l, 1, close);
    let secs = match clock_seconds(&clock) {
        Some(v) => v,
        None => return None,
    };
    let gap = vec!['–', '—', '-', ' '];
    assert(gap@ =~= topic_gap());
    let after = slice_vec(&l, close + 1, l.len());
    let body = trim_start_set(&trim_chars(&after), &gap);
    if body.len() == 0 {
        return None;
    }
    let mut text = vec!['['];
    append(&mut text, &clock);
    text.push(']');
    text.push(' ');
    append(&mut text, &body);
    proof {
        assert(text@ =~= seq!['['] + clock@ + seq![']', ' '] + body@);
    }
    Some((secs, text))
}

/// Topic lines "[time] title — what was said", sorted by time; topics
/// closer than three minutes to the last kept are glued to it (the first
/// stays), thirty at most.
pub fn assemble_outline(pieces: &[String]) -> (r: String)
    ensures
        r@ == outline(texts(pieces@)),
{
    let ls = piece_lines(pieces);
    let ghost lv = views(ls@);
    // the topic rows, kept sorted as they come
    let mut rows: Vec<(u32, Vec<char>)> = Vec::new();
    let mut i: usize = 0;
    while i < ls.len()
        invariant
            i <= ls@.len(),
            lv == views(ls@),
            rows_view(rows@) == sort_rows(outline_rows(lv.take(i as int))),
        decreases ls.len() - i,
    {
        proof {
            assert(lv.take(i + 1).drop_last() =~= lv.take(i as int));
            assert(lv.take(i + 1).last() == ls@[i as int]@);
        }
        match outline_row_of(&ls[i]) {
            None => {
                proof {
                    assert(outline_rows(lv.take(i + 1)) == outline_rows(lv.take(i as int)));
                }
            },
            Some(row) => {
                let mut j: usize = 0;
                while j < rows.len() && rows[j].0 <= row.0
                    invariant
                        j <= rows@.len(),
                        forall|k: int| 0 <= k < j ==> (#[trigger] rows_view(rows@)[k]).0 <= row.0,
                    decreases rows.len() - j,
                {
                    j += 1;
                }
                let ghost before = rows_view(rows@);
                let ghost rv = (row.0 as int, row.1@);
                proof {
                    lemma_insert_row(before, rv, j as int);
                    assert(outline_rows(lv.take(i + 1)) == outline_rows(lv.take(i as int)).push(rv));
                    assert(outline_rows(lv.take(i + 1)).drop_last() =~= outline_rows(lv.take(i as int)));
                }
                rows.insert(j, row);
                proof {
                    assert(rows_view(rows@) =~= before.insert(j as int, rv));
                }
            },
        }
        i += 1;
    }
    proof {
        assert(lv.take(ls@.len() as int) =~= lv);
    }
    let ghost sorted = rows_view(rows@);
    let mut out: Vec<Vec<char>> = Vec::new();
    let mut last: Option<u32> = None;
    let mut k: usize = 0;
    while k < rows.len() && out.len() < 30
        invariant
            k <= rows@.len(),
            sorted == rows_view(rows@),
            views(out@) == thin_rows(sorted.take(k as int)).0,
            thin_rows(sorted.take(k as int)).1.len() == 0 <==> last is None,
            last is Some ==> thin_rows(sorted.take(k as int)).1.last() == last->0 as int,
            out@.len() == thin_rows(sorted.take(k as int)).1.len(),
            out@.len() <= 30,
        decreases rows.len() - k,
    {
        proof {
            assert(sorted.take(k + 1).drop_last() =~= sorted.take(k as int));
            assert(sorted.take(k + 1).last() == sorted[k as int]);
        }
        let secs = rows[k].0;
        let keep = match last {
            Some(prev) => secs as u64 >= prev as u64 + 180,
            None => true,
        };
        if keep {
            let text = slice_vec(&rows[k].1, 0, rows[k].1.len());
            proof {
                assert(text@ =~= rows@[k as int].1@);
            }
            let ghost before = out@;
            out.push(text);
            last = Some(secs);
            proof {
                assert(views(out@) =~= views(before).push(text@));
            }
        }
        k += 1;
    }
    proof {
        if out@.len() >= 30 {
            lemma_thin_full(sorted, k as int);
        } else {
            assert(sorted.take(k as int) =~= sorted);
        }
    }
    string_of(&join_chars(&out, &chars_of("\n")))
}

/// Once thirty topics are kept, the rest change nothing.
proof fn lemma_thin_full(rows: Seq<(int, Seq<char>)>, k: int)
    requires
        0 <= k <= rows.len(),
        thin_rows(rows.take(k)).0.len() >= 30,
    ensures
        thin_rows(rows) == thin_rows(rows.take(k)),
    decreases rows.len() - k,
{
    if k < rows.len() {
        assert(rows.take(k + 1).drop_last() =~= rows.take(k));
        lemma_thin_full(rows, k + 1);
    } else {
        assert(rows.take(k) =~= rows);
    }
}

/// Rows in order of time.
pub open spec fn by_time(s: Seq<(int, Seq<char>)>) -> bool {
    forall|i: int, j: int| 0 <= i < j < s.len() ==> (#[trigger] s[i]).0 <= (#[trigger] s[j]).0
}

proof fn lemma_insert_row_sorted(s: Seq<(int, Seq<char>)>, x: (int, Seq<char>))
    requires
        by_time(s),
    ensures
        by_time(insert_row(s, x)),
        insert_row(s, x).len() == s.len() + 1,
        forall|i: int| 0 <= i < insert_row(s, x).len() ==> #[trigger] insert_row(s, x)[i] == x || s.contains(
            insert_row(s, x)[i],
        ),
    decreases s.len(),
{
    if s.len() > 0 && s[0].0 <= x.0 {
        let t = s.drop_first();
        assert(by_time(t)) by {
            assert forall|i: int, j: int| 0 <= i < j < t.len() implies (#[trigger] t[i]).0 <= (
            #[trigger] t[j]).0 by {
                assert(t[i] == s[i + 1] && t[j] == s[j + 1]);
            }
        }
        lemma_insert_row_sorted(t, x);
        let r = insert_row(s, x);
        let rt = insert_row(t, x);
        assert(r == seq![s[0]] + rt);
        assert forall|i: int| 0 <= i < r.len() implies #[trigger] r[i] == x || s.contains(r[i]) by {
            if i > 0 {
                assert(r[i] == rt[i - 1]);
                if rt[i - 1] != x {
                    let k = choose|k: int| 0 <= k < t.len() && t[k] == rt[i - 1];
                    assert(s[k + 1] == t[k]);
                }
            } else {
                assert(s[0] == r[0]);
            }
        }
        assert forall|i: int, j: int| 0 <= i < j < r.len() implies (#[trigger] r[i]).0 <= (#[trigger] r[j]).0 by {
            if i == 0 {
                assert(r[j] == rt[j - 1]);
                if rt[j - 1] == x {
                } else {
                    let k = choose|k: int| 0 <= k < s.len() && s[k] == rt[j - 1];
                    if k > 0 {
                        assert(s[0].0 <= s[k].0);
                    }
                }
            } else {
                assert(r[i] == rt[i - 1] && r[j] == rt[j - 1]);
            }
        }
    } else if s.len() > 0 {
        let r = insert_row(s, x);
        assert(r == seq![x] + s);
        assert forall|i: int| 0 <= i < r.len() implies #[trigger] r[i] == x || s.contains(r[i]) by {
            if i > 0 {
                assert(r[i] == s[i - 1]);
            }
        }
        assert forall|i: int, j: int| 0 <= i < j < r.len() implies (#[trigger] r[i]).0 <= (#[trigger] r[j]).0 by {
            if i == 0 {
                assert(r[j] == s[j - 1]);
                if j - 1 > 0 {
                    assert(s[0].0 <= s[j - 1].0);
                }
            } else {
                assert(r[i] == s[i - 1] && r[j] == s[j - 1]);
            }
        }
    } else {
        let r = insert_row(s, x);
        assert(r =~= seq![x]);
    }
}

/// Sorting puts the topic rows in order of time and loses none.
pub proof fn law_rows_by_time(rows: Seq<(int, Seq<char>)>)
    ensures
        by_time(sort_rows(rows)),
        sort_rows(rows).len() == rows.len(),
    decreases rows.len(),
{
    if rows.len() > 0 {
        law_rows_by_time(rows.drop_last());
        lemma_insert_row_sorted(sort_rows(rows.drop_last()), rows.last());
    }
}

/// The topics kept are at least three minutes apart, each later than the
/// one before, and there are at most thirty of them.
pub proof fn law_topics_spaced(rows: Seq<(int, Seq<char>)>)
    ensures
        thin_rows(rows).0.len() == thin_rows(rows).1.len(),
        thin_rows(rows).0.len() <= 30,
        forall|i: int|
            0 <= i < thin_rows(rows).1.len() - 1 ==> #[trigger] thin_rows(rows).1[i] + min_gap()
                <= thin_rows(rows).1[i + 1],
    decreases rows.len(),
{
    if rows.len() > 0 {
        law_topics_spaced(rows.drop_last());
        let (out, times) = thin_rows(rows.drop_last());
        let t = thin_rows(rows).1;
        assert forall|i: int| 0 <= i < t.len() - 1 implies #[trigger] t[i] + min_gap() <= t[i + 1] by {
            if t.len() > times.len() && i == t.len() - 2 {
                assert(t[i] == times.last());
            } else {
                assert(t[i] == times[i] && t[i + 1] == times[i + 1]);
            }
        }
    }
}

// --- numbered lines of a translation ---------------------------------------------------------

/// ASCII digits as a predicate.
pub open spec fn digit() -> spec_fn(char) -> bool {
    |c: char| '0' <= c <= '9'
}

/// A line trimmed, with list markers gone from its start.
pub open spec fn marked(line: Seq<char>) -> Seq<char> {
    trim_start_by(trim(line), one_of(list_marks()))
}

/// How many digits the line starts with.
pub open spec fn digit_count(l: Seq<char>) -> nat {
    lead(l, digit())
}

/// A numbered line: digits, then "." or ") ".
pub open spec fn numbered_line(l: Seq<char>) -> bool {
    let d = digit_count(l);
    let rest = l.skip(d as int);
    d > 0 && rest.len() > 0 && (rest[0] == '.' || (rest[0] == ')' && rest.len() > 1 && rest[1] == ' '))
}

/// The number of a numbered line; one too large for `usize` counts as 0.
pub open spec fn line_number(l: Seq<char>) -> int {
    match parse_unsigned(l.take(digit_count(l) as int), usize::MAX as int) {
        Some(v) => v,
        None => 0,
    }
}

/// The text of a numbered line, after its number and mark.
pub open spec fn numbered_text(l: Seq<char>) -> Seq<char> {
    trim(trim_start_by(l.skip(digit_count(l) as int), one_of(seq!['.', ')', ' '])))
}

/// Lines "N. text" put in their places: slot N-1 gets the first line
/// numbered N (numbers outside 1..=n go nowhere); a line without a number
/// continues the line just placed. Also counts all numbered lines, extra
/// ones included, and remembers which slot a continuation would go to.
pub open spec fn numbered_fold(ls: Seq<Seq<char>>, n: nat) -> (Seq<Option<Seq<char>>>, nat, Option<int>)
    decreases ls.len(),
{
    if ls.len() == 0 {
        (Seq::new(n, |i: int| None), 0, None)
    } else {
        let (out, seen, current) = numbered_fold(ls.drop_last(), n);
        let l = marked(ls.last());
        if numbered_line(l) {
            let idx = line_number(l);
            if 1 <= idx <= n && out[idx - 1] is None {
                (out.update(idx - 1, Some(numbered_text(l))), seen + 1, Some(idx - 1))
            } else {
                (out, seen + 1, None)
            }
        } else {
            match current {
                Some(i) => if l.len() > 0 && out[i] is Some {
                    (out.update(i, Some(out[i]->0 + seq![' '] + l)), seen, current)
                } else {
                    (out, seen, current)
                },
                None => (out, seen, current),
            }
        }
    }
}

/// The slots as plain values.
pub open spec fn slots_view(v: Seq<Option<String>>) -> Seq<Option<Seq<char>>> {
    v.map_values(|o: Option<String>| match o {
        Some(s) => Some(s@),
        None => None,
    })
}

/// Slots under construction as plain values.
pub open spec fn slot_views(v: Seq<Option<Vec<char>>>) -> Seq<Option<Seq<char>>> {
    v.map_values(|o: Option<Vec<char>>| match o {
        Some(s) => Some(s@),
        None => None,
    })
}

fn marked_line(line: &[char]) -> (r: Vec<char>)
    ensures
        r@ == marked(line@),
{
    let marks = vec!['-', '•', '*', ' '];
    assert(marks@ =~= list_marks());
    trim_start_set(&trim_chars(line), &marks)
}

fn digit_prefix(l: &[char]) -> (d: usize)
    ensures
        d == digit_count(l@),
        d <= l@.len(),
{
    let mut d: usize = 0;
    while d < l.len() && '0' <= l[d] && l[d] <= '9'
        invariant
            d <= l@.len(),
            forall|i: int| 0 <= i < d ==> #[trigger] digit()(l@[i]),
        decreases l.len() - d,
    {
        d += 1;
    }
    proof {
        crate::text::lemma_lead_char(l@, digit(), d as int);
    }
    d
}

fn text_after_number(l: &[char], d: usize) -> (r: Vec<char>)
    requires
        d == digit_count(l@),
        d <= l@.len(),
    ensures
        r@ == numbered_text(l@),
{
    let rest = slice_vec(l, d, l.len());
    proof {
        assert(rest@ =~= l@.skip(d as int));
    }
    let marks = vec!['.', ')', ' '];
    assert(marks@ =~= seq!['.', ')', ' ']);
    trim_chars(&trim_start_set(&rest, &marks))
}

/// Lines "N. text" of a reply put back by number: slot N-1 holds the text
/// of the first line numbered N, or `None`; a line without a number
/// continues the one before it. The count is of all numbered lines,
/// extra ones included.
pub fn parse_numbered(raw: &str, n: usize) -> (r: (Vec<Option<String>>, usize))
    ensures
        slots_view(r.0@) == numbered_fold(lines(raw@), n as nat).0,
        r.1 == numbered_fold(lines(raw@), n as nat).1,
{
    let text = chars_of(raw);
    let ls = lines_of(&text);
    let ghost lv = lines(raw@);
    let mut out: Vec<Option<Vec<char>>> = Vec::new();
    let mut k: usize = 0;
    while k < n
        invariant
            k <= n,
            out@.len() == k,
            forall|i: int| 0 <= i < k ==> (#[trigger] out@[i]) is None,
        decreases n - k,
    {
        out.push(None);
        k += 1;
    }
    proof {
        assert(lv.take(0) =~= Seq::<Seq<char>>::empty());
        assert(slot_views(out@) =~= Seq::new(n as nat, |i: int| None::<Seq<char>>));
    }
    let mut seen: usize = 0;
    let mut current: Option<usize> = None;
    let mut j: usize = 0;
    while j < ls.len()
        invariant
            j <= ls@.len(),
            ls@.len() == lv.len(),
            lv == lines(raw@),
            forall|i: int| 0 <= i < ls@.len() ==> #[trigger] ls@[i]@ == lv[i],
            out@.len() == n,
            seen <= j,
            (slot_views(out@), seen as nat, match current {
                Some(c) => Some(c as int),
                None => None,
            }) == numbered_fold(lv.take(j as int), n as nat),
            current is Some ==> current->0 < n,
        decreases ls.len() - j,
    {
        proof {
            assert(lv.take(j + 1).drop_last() =~= lv.take(j as int));
            assert(lv.take(j + 1).last() == ls@[j as int]@);
        }
        let l = marked_line(&ls[j]);
        let d = digit_prefix(&l);
        let numbered = d > 0 && d < l.len() && (l[d] == '.' || (l[d] == ')' && d + 1 < l.len() && l[d + 1] == ' '));
        proof {
            assert(l@.skip(d as int).len() > 0 ==> l@.skip(d as int)[0] == l@[d as int]);
            assert(l@.skip(d as int).len() > 1 ==> l@.skip(d as int)[1] == l@[d + 1]);
        }
        let ghost before = slot_views(out@);
        if numbered {
            seen += 1;
            let digits = slice_vec(&l, 0, d);
            proof {
                assert(digits@ =~= l@.take(d as int));
            }
            let idx: usize = match parse_unsigned_chars(&digits, usize::MAX as u64) {
                Some(v) => v as usize,
                None => 0,
            };
            let t = text_after_number(&l, d);
            if idx >= 1 && idx <= n && out[idx - 1].is_none() {
                out.set(idx - 1, Some(t));
                current = Some(idx - 1);
                proof {
                    assert(slot_views(out@) =~= before.update(idx - 1, Some(numbered_text(l@))));
                }
            } else {
                current = None;
            }
        } else {
            match current {
                Some(i) => {
                    if l.len() > 0 && out[i].is_some() {
                        let mut joined: Vec<char> = Vec::new();
                        match &out[i] {
                            Some(t) => {
                                joined = slice_vec(t, 0, t.len());
                                proof {
                                    assert(joined@ =~= t@);
                                }
                            },
                            None => {},
                        }
                        joined.push(' ');
                        append(&mut joined, &l);
                        proof {
                            assert(joined@ =~= before[i as int]->0 + seq![' '] + l@);
                        }
                        out.set(i, Some(joined));
                        proof {
                            assert(slot_views(out@) =~= before.update(
                                i as int,
                                Some(before[i as int]->0 + seq![' '] + l@),
                            ));
                        }
                    }
                },
                None => {},
            }
        }
        j += 1;
    }
    proof {
        assert(lv.take(ls@.len() as int) =~= lv);
    }
    let mut slots: Vec<Option<String>> = Vec::new();
    let mut i: usize = 0;
    while i < out.len()
        invariant
            i <= out@.len(),
            slots@.len() == i,
            forall|k: int| 0 <= k < i ==> #[trigger] slots_view(slots@)[k] == slot_views(out@)[k],
        decreases out.len() - i,
    {
        let s = match &out[i] {
            Some(t) => Some(string_of(t)),
            None => None,
        };
        let ghost before = slots@;
        slots.push(s);
        proof {
            assert(slots_view(slots@)[i as int] == slot_views(out@)[i as int]);
            assert forall|k: int| 0 <= k < i implies #[trigger] slots_view(slots@)[k] == slot_views(out@)[k] by {
                assert(slots@[k] == before[k]);
                assert(slots_view(before)[k] == slot_views(out@)[k]);
            }
        }
        i += 1;
    }
    proof {
        assert(slots_view(slots@) =~= slot_views(out@));
    }
    (slots, seen)
}

/// The texts of all numbered lines ("N." or "N)"), in order, empty ones
/// left out.
pub open spec fn all_numbered(ls: Seq<Seq<char>>) -> Seq<Seq<char>>
    decreases ls.len(),
{
    if ls.len() == 0 {
        Seq::empty()
    } else {
        let out = all_numbered(ls.drop_last());
        let l = marked(ls.last());
        let d = digit_count(l);
        let rest = l.skip(d as int);
        if d == 0 || !(rest.len() > 0 && (rest[0] == '.' || rest[0] == ')')) || numbered_text(l).len() == 0 {
            out
        } else {
            out.push(numbered_text(l))
        }
    }
}

/// All numbered lines of a reply, in order, without their numbers.
pub fn parse_all_numbered(raw: &str) -> (r: Vec<String>)
    ensures
        texts(r@) == all_numbered(lines(raw@)),
{
    let text = chars_of(raw);
    let ls = lines_of(&text);
    let ghost lv = lines(raw@);
    let mut out: Vec<String> = Vec::new();
    let mut j: usize = 0;
    while j < ls.len()
        invariant
            j <= ls@.len(),
            ls@.len() == lv.len(),
            lv == lines(raw@),
            forall|i: int| 0 <= i < ls@.len() ==> #[trigger] ls@[i]@ == lv[i],
            texts(out@) == all_numbered(lv.take(j as int)),
        decreases ls.len() - j,
    {
        proof {
            assert(lv.take(j + 1).drop_last() =~= lv.take(j as int));
            assert(lv.take(j + 1).last() == ls@[j as int]@);
        }
        let l = marked_line(&ls[j]);
        let d = digit_prefix(&l);
        proof {
            assert(l@.skip(d as int).len() > 0 ==> l@.skip(d as int)[0] == l@[d as int]);
        }
        if d > 0 && d < l.len() && (l[d] == '.' || l[d] == ')') {
            let t = text_after_number(&l, d);
            if t.len() > 0 {
                let ghost before = out@;
                out.push(string_of(&t));
                proof {
                    assert(texts(out@) =~= texts(before).push(t@));
                }
            }
        }
        j += 1;
    }
    proof {
        assert(lv.take(ls@.len() as int) =~= lv);
    }
    out
}

// --- languages, kinds, titles --------------------------------------------------------------

/// Translation languages: code, own name, and the Russian name the model
/// is given.
pub open spec fn language_table() -> Seq<(Seq<char>, Seq<char>, Seq<char>)> {
    seq![
        ("en"@, "English"@, "английский"@),
        ("ru"@, "Русский"@, "русский"@),
        ("de"@, "Deutsch"@, "немецкий"@),
        ("es"@, "Español"@, "испанский"@),
        ("fr"@, "Français"@, "французский"@),
        ("it"@, "Italiano"@, "итальянский"@),
        ("pt"@, "Português"@, "португальский"@),
        ("tr"@, "Türkçe"@, "турецкий"@),
        ("uk"@, "Українська"@, "украинский"@),
        ("kk"@, "Қазақша"@, "казахский"@),
        ("zh"@, "中文"@, "китайский"@),
        ("ja"@, "日本語"@, "японский"@),
    ]
}

/// The first row of the table with the given code, from row `i` on.
pub open spec fn language_from(code: Seq<char>, i: int) -> Option<int>
    decreases language_table().len() - i,
{
    if i < 0 || i >= language_table().len() {
        None
    } else if language_table()[i].0 == code {
        Some(i)
    } else {
        language_from(code, i + 1)
    }
}

/// A translation language offered: code, own name, Russian name.
pub struct TranslationLanguage {
    pub code: &'static str,
    pub name: &'static str,
    pub russian: &'static str,
}

/// The translation languages, in the order they are offered.
pub fn languages() -> (r: Vec<TranslationLanguage>)
    ensures
        r@.len() == language_table().len(),
        forall|i: int| 0 <= i < r@.len() ==> ((#[trigger] r@[i]).code@, r@[i].name@, r@[i].russian@)
            == language_table()[i],
{
    let r = vec![
        TranslationLanguage { code: "en", name: "English", russian: "английский" },
        TranslationLanguage { code: "ru", name: "Русский", russian: "русский" },
        TranslationLanguage { code: "de", name: "Deutsch", russian: "немецкий" },
        TranslationLanguage { code: "es", name: "Español", russian: "испанский" },
        TranslationLanguage { code: "fr", name: "Français", russian: "французский" },
        TranslationLanguage { code: "it", name: "Italiano", russian: "итальянский" },
        TranslationLanguage { code: "pt", name: "Português", russian: "португальский" },
        TranslationLanguage { code: "tr", name: "Türkçe", russian: "турецкий" },
        TranslationLanguage { code: "uk", name: "Українська", russian: "украинский" },
        TranslationLanguage { code: "kk", name: "Қазақша", russian: "казахский" },
        TranslationLanguage { code: "zh", name: "中文", russian: "китайский" },
        TranslationLanguage { code: "ja", name: "日本語", russian: "японский" },
    ];
    r
}

/// The Russian name of a translation language, by its code.
pub fn language_name(code: &str) -> (r: Option<&'static str>)
    ensures
        match language_from(code@, 0) {
            Some(i) => r is Some && r->0@ == language_table()[i].2,
            None => r is None,
        },
{
    let table = languages();
    let c = chars_of(code);
    let mut i: usize = 0;
    while i < table.len()
        invariant
            i <= table@.len(),
            c@ == code@,
            table@.len() == language_table().len(),
            forall|k: int| 0 <= k < table@.len() ==> ((#[trigger] table@[k]).code@, table@[k].name@, table@[k].russian@)
                == language_table()[k],
            language_from(code@, 0) == language_from(code@, i as int),
        decreases table.len() - i,
    {
        if crate::text::eq_chars(&chars_of(table[i].code), &c) {
            return Some(table[i].russian);
        }
        i += 1;
    }
    None
}

/// What kind of recording the model's one-word answer names: a meeting, a
/// talk (webinar, lecture), an interview (podcast) or something else.
pub open spec fn recording_kind_spec(answer: Seq<char>) -> Seq<char> {
    let word = unicode_lower(answer);
    if crate::text::has(word, "встреч"@) {
        "meeting"@
    } else if crate::text::has(word, "вебинар"@) || crate::text::has(word, "лекци"@) {
        "talk"@
    } else if crate::text::has(word, "интервью"@) || crate::text::has(word, "подкаст"@) {
        "interview"@
    } else {
        "other"@
    }
}

/// The kind of recording named by the model's answer.
pub fn recording_kind(answer: &str) -> (r: String)
    ensures
        r@ == recording_kind_spec(answer@),
{
    let word = to_lower(&chars_of(answer));
    let kind = if crate::text::contains(&word, &chars_of("встреч")) {
        "meeting"
    } else if crate::text::contains(&word, &chars_of("вебинар")) || crate::text::contains(&word, &chars_of("лекци")) {
        "talk"
    } else if crate::text::contains(&word, &chars_of("интервью")) || crate::text::contains(&word, &chars_of("подкаст")) {
        "interview"
    } else {
        "other"
    };
    string_of(&chars_of(kind))
}

/// Quotes and a final stop around a title.
pub open spec fn title_marks() -> Seq<char> {
    seq!['«', '»', '"', '\'', '“', '”', '.']
}

/// A title from the model's answer: its first line, without quotes or a
/// final stop around it; over sixty characters means the model retold the
/// recording instead, and there is no title.
pub open spec fn title_spec(answer: Seq<char>) -> Seq<char> {
    let ls = lines(answer);
    let first = if ls.len() > 0 { ls[0] } else { Seq::empty() };
    let t = trim(trim_by(trim(first), one_of(title_marks())));
    if t.len() > 60 {
        Seq::empty()
    } else {
        t
    }
}

/// The title of a recording from the model's answer.
pub fn title_from_answer(answer: &str) -> (r: String)
    ensures
        r@ == title_spec(answer@),
{
    let ls = lines_of(&chars_of(answer));
    let first: Vec<char> = if ls.len() > 0 { slice_vec(&ls[0], 0, ls[0].len()) } else { Vec::new() };
    proof {
        if ls@.len() > 0 {
            assert(first@ =~= lines(answer@)[0]);
        }
    }
    let marks = vec!['«', '»', '"', '\'', '“', '”', '.'];
    assert(marks@ =~= title_marks());
    let t = trim_chars(&trim_set(&trim_chars(&first), &marks));
    if t.len() > 60 {
        return String::new();
    }
    string_of(&t)
}

// --- extracts from the parts of a long recording --------------------------------------------

/// An extract is kept unless it is empty or just "нет" (after trimming and
/// dropping final stops).
pub open spec fn keeps_extract(found: Seq<char>) -> bool {
    let cleaned = trim_end_by(trim(found), one_of(seq!['.']));
    cleaned.len() > 0 && !eq_ascii_ci(cleaned, "нет"@)
}

/// Whether the extract from one part is worth keeping.
pub fn keep_extract(found: &str) -> (r: bool)
    ensures
        r == keeps_extract(found@),
{
    let t = trim_chars(&chars_of(found));
    let cleaned = crate::text::trim_end_set(&t, &['.']);
    proof {
        assert(['.']@ =~= seq!['.']);
    }
    cleaned.len() > 0 && !eq_ignore_ascii_case(&cleaned, &chars_of("нет"))
}

/// The extracts handed to the final pass: separated by rules, or a note
/// that there are none.
pub open spec fn merged_spec(pieces: Seq<Seq<char>>) -> Seq<char> {
    if pieces.len() == 0 {
        "(выписок нет)"@
    } else {
        join(pieces, "\n\n---\n\n"@)
    }
}

/// The text of the final pass over the extracts.
pub fn merged_extracts(pieces: &[String]) -> (r: String)
    ensures
        r@ == merged_spec(texts(pieces@)),
{
    if pieces.len() == 0 {
        return string_of(&chars_of("(выписок нет)"));
    }
    let ps = piece_chars(pieces);
    string_of(&join_chars(&ps, &chars_of("\n\n---\n\n")))
}

/// A question to a recording, trimmed; a blank one is refused.
pub fn question_text(question: &str) -> (r: Option<String>)
    ensures
        match r {
            Some(q) => q@ == trim(question@) && q@.len() > 0,
            None => trim(question@).len() == 0,
        },
{
    let q = trim_chars(&chars_of(question));
    if q.len() == 0 {
        None
    } else {
        Some(string_of(&q))
    }
}

/// A prompt with the question added under it.
pub fn with_question(prompt: &str, question: &str) -> (r: String)
    ensures
        r@ == prompt@ + "\n\nВопрос: "@ + question@,
{
    let mut out = chars_of(prompt);
    append(&mut out, &chars_of("\n\nВопрос: "));
    append(&mut out, &chars_of(question));
    string_of(&out)
}

// --- cutting a long text into parts -----------------------------------------------------

/// How many bytes UTF-8 gives a character (`char::len_utf8`).
pub open spec fn utf8_len(c: char) -> int {
    if (c as u32) < 0x80 {
        1
    } else if (c as u32) < 0x800 {
        2
    } else if (c as u32) < 0x10000 {
        3
    } else {
        4
    }
}

/// The byte offset of character `j`.
pub open spec fn offset(t: Seq<char>, j: int) -> int
    decreases j,
{
    if j <= 0 || t.len() == 0 {
        0
    } else if j > t.len() {
        offset(t, t.len() as int)
    } else {
        offset(t, j - 1) + utf8_len(t[j - 1])
    }
}

/// The first character, from `j` on, that starts at byte `c` or later; the
/// end of the text when there is none.
pub open spec fn boundary_from(t: Seq<char>, c: int, j: int) -> int
    decreases t.len() - j,
{
    if j < 0 || j >= t.len() {
        t.len() as int
    } else if offset(t, j) >= c {
        j
    } else {
        boundary_from(t, c, j + 1)
    }
}

/// Where the `i`-th cut falls, given where the part before it starts: at
/// the `i`-th step of bytes (but past the start), moved to a character
/// boundary, then to just after the next ". ".
pub open spec fn cut_point(t: Seq<char>, step: int, i: int, start: int) -> int {
    let total = offset(t, t.len() as int);
    let c0 = if step * i > offset(t, start) + 1 { step * i } else { offset(t, start) + 1 };
    let c1 = if c0 < total { c0 } else { total };
    let j = boundary_from(t, c1, 0);
    match next_occ(t, seq!['.', ' '], j) {
        Some(d) => d + 1,
        None => j,
    }
}

/// The starts of the parts after the first, from cut `i` on.
pub open spec fn part_starts(t: Seq<char>, n: int, step: int, i: int, start: int) -> Seq<int>
    decreases n - i,
{
    if i >= n {
        Seq::empty()
    } else {
        let cut = cut_point(t, step, i, start);
        if cut > start && cut < t.len() {
            seq![cut] + part_starts(t, n, step, i + 1, cut)
        } else {
            part_starts(t, n, step, i + 1, start)
        }
    }
}

/// The parts between consecutive starts, the last one to the end.
pub open spec fn parts_between(t: Seq<char>, starts: Seq<int>) -> Seq<Seq<char>>
    decreases starts.len(),
{
    if starts.len() == 0 {
        Seq::empty()
    } else if starts.len() == 1 {
        seq![t.subrange(starts[0], t.len() as int)]
    } else {
        seq![t.subrange(starts[0], starts[1])] + parts_between(t, starts.drop_first())
    }
}

/// A text cut into `n` parts of about equal size in bytes, each cut moved
/// forward to the end of a sentence.
pub open spec fn split_spec(t: Seq<char>, n: int) -> Seq<Seq<char>> {
    let total = offset(t, t.len() as int);
    parts_between(t, seq![0] + part_starts(t, n, total / n, 1, 0))
}

fn utf8_width(c: char) -> (r: u128)
    ensures
        r == utf8_len(c),
{
    let u = c as u32;
    if u < 0x80 {
        1
    } else if u < 0x800 {
        2
    } else if u < 0x10000 {
        3
    } else {
        4
    }
}

proof fn lemma_offset_step(t: Seq<char>, j: int)
    requires
        0 <= j < t.len(),
    ensures
        offset(t, j + 1) == offset(t, j) + utf8_len(t[j]),
        offset(t, j) >= 0,
{
    lemma_offset_mono(t, j);
}

proof fn lemma_offset_mono(t: Seq<char>, j: int)
    requires
        0 <= j <= t.len(),
    ensures
        0 <= offset(t, j) <= 4 * j,
        j > 0 ==> offset(t, j) >= j,
    decreases j,
{
    if j > 0 {
        lemma_offset_mono(t, j - 1);
    }
}

proof fn lemma_offset_increasing(t: Seq<char>, a: int, b: int)
    requires
        0 <= a < b <= t.len(),
    ensures
        offset(t, a) < offset(t, b),
    decreases b - a,
{
    lemma_offset_step(t, b - 1);
    if a < b - 1 {
        lemma_offset_increasing(t, a, b - 1);
    }
}

/// Cuts a long text into `n` parts of about equal size for the model: the
/// parts, read in order, give the text back.
pub fn split_into(text: &str, n: usize) -> (r: Vec<String>)
    requires
        n >= 1,
    ensures
        texts(r@) == split_spec(text@, n as int),
{
    let t = chars_of(text);
    // byte offsets of the characters
    let mut offs: Vec<u128> = Vec::new();
    offs.push(0);
    let mut k: usize = 0;
    while k < t.len()
        invariant
            k <= t@.len(),
            offs@.len() == k + 1,
            forall|j: int| 0 <= j <= k ==> #[trigger] offs@[j] == offset(t@, j),
            offs@[k as int] <= 4 * k,
        decreases t.len() - k,
    {
        proof {
            lemma_offset_step(t@, k as int);
        }
        let w = utf8_width(t[k]);
        let next = offs[k] + w;
        offs.push(next);
        k += 1;
    }
    let total = offs[t.len()];
    let step = total / n as u128;
    let ghost step_i = total as int / n as int;
    let mut starts: Vec<usize> = vec![0];
    let mut start: usize = 0;
    let mut i: usize = 1;
    while i < n
        invariant
            1 <= i <= n,
            n >= 1,
            offs@.len() == t@.len() + 1,
            forall|j: int| 0 <= j <= t@.len() ==> #[trigger] offs@[j] == offset(t@, j),
            total == offset(t@, t@.len() as int),
            total <= 4 * t@.len(),
            step == step_i,
            step_i == (total as int) / (n as int),
            start < t@.len() || start == 0,
            start <= t@.len(),
            starts@.len() >= 1,
            starts@.last() == start,
            forall|a: int, b: int| 0 <= a < b < starts@.len() ==> starts@[a] < starts@[b],
            forall|a: int| 0 <= a < starts@.len() ==> starts@[a] <= start,
            seq![0int] + part_starts(t@, n as int, step_i, 1, 0) == starts@.map_values(|x: usize| x as int)
                + part_starts(t@, n as int, step_i, i as int, start as int),
        decreases n - i,
    {
        proof {
            assert(step_i * i <= total) by (nonlinear_arith)
                requires
                    step_i == (total as int) / (n as int),
                    1 <= i < n,
                    total >= 0,
            {
            }
        }
        proof {
            lemma_offset_mono(t@, start as int);
        }
        let c0 = if step * (i as u128) > offs[start] + 1 { step * (i as u128) } else { offs[start] + 1 };
        let c1 = if c0 < total { c0 } else { total };
        // the first character boundary at or after c1
        let mut j: usize = 0;
        while j < t.len() && offs[j] < c1
            invariant
                j <= t@.len(),
                offs@.len() == t@.len() + 1,
                forall|q: int| 0 <= q <= t@.len() ==> #[trigger] offs@[q] == offset(t@, q),
                boundary_from(t@, c1 as int, 0) == boundary_from(t@, c1 as int, j as int),
            decreases t.len() - j,
        {
            j += 1;
        }
        let cut = match find_from(&t, j, &['.', ' ']) {
            Some(d) => {
                proof {
                    crate::text::lemma_next_occ_found(t@, ['.', ' ']@, j as int, d as int);
                    assert(['.', ' ']@ =~= seq!['.', ' ']);
                }
                d + 1
            },
            None => {
                proof {
                    crate::text::lemma_next_occ_none(t@, ['.', ' ']@, j as int);
                    assert(['.', ' ']@ =~= seq!['.', ' ']);
                }
                j
            },
        };
        proof {
            assert(cut as int == cut_point(t@, step_i, i as int, start as int));
        }
        let ghost before = starts@;
        if cut > start && cut < t.len() {
            starts.push(cut);
            start = cut;
            proof {
                assert(starts@.map_values(|x: usize| x as int) =~= before.map_values(|x: usize| x as int).push(
                    cut as int,
                ));
            }
        }
        i += 1;
    }
    proof {
        assert(starts@.map_values(|x: usize| x as int) =~= seq![0int] + part_starts(t@, n as int, step_i, 1, 0));
    }
    let ghost sv = starts@.map_values(|x: usize| x as int);
    let mut parts: Vec<String> = Vec::new();
    proof {
        assert(sv.skip(0) =~= sv);
        assert(texts(parts@) =~= Seq::<Seq<char>>::empty());
        assert(texts(parts@) + parts_between(t@, sv) =~= parts_between(t@, sv));
    }
    let mut p: usize = 0;
    while p < starts.len()
        invariant
            p <= starts@.len(),
            sv == starts@.map_values(|x: usize| x as int),
            forall|a: int, b: int| 0 <= a < b < starts@.len() ==> starts@[a] < starts@[b],
            forall|a: int| 0 <= a < starts@.len() ==> starts@[a] <= t@.len(),
            texts(parts@) + parts_between(t@, sv.skip(p as int)) == parts_between(t@, sv),
        decreases starts.len() - p,
    {
        let from = starts[p];
        let to = if p + 1 < starts.len() { starts[p + 1] } else { t.len() };
        let piece = slice_vec(&t, from, to);
        let ghost before = parts@;
        parts.push(string_of(&piece));
        proof {
            let rest = sv.skip(p as int);
            assert(rest[0] == from as int);
            if p + 1 < starts@.len() {
                assert(rest[1] == to as int);
            }
            assert(rest.drop_first() =~= sv.skip(p + 1));
            assert(texts(parts@) =~= texts(before).push(piece@));
        }
        p += 1;
    }
    proof {
        assert(sv.skip(starts@.len() as int) =~= Seq::<int>::empty());
    }
    parts
}

proof fn lemma_flatten_prepend(x: Seq<char>, rest: Seq<Seq<char>>)
    ensures
        crate::text::flatten(seq![x] + rest) == x + crate::text::flatten(rest),
    decreases rest.len(),
{
    let whole = seq![x] + rest;
    if rest.len() == 0 {
        assert(whole =~= seq![x]);
        assert(whole.drop_last() =~= Seq::<Seq<char>>::empty());
        assert(crate::text::flatten(whole) == crate::text::flatten(whole.drop_last()) + whole.last());
        assert(crate::text::flatten(whole) =~= x);
        assert(x + crate::text::flatten(rest) =~= x);
    } else {
        lemma_flatten_prepend(x, rest.drop_last());
        assert(whole.drop_last() =~= seq![x] + rest.drop_last());
        assert(whole.last() == rest.last());
        assert(crate::text::flatten(whole) == crate::text::flatten(whole.drop_last()) + whole.last());
        assert(crate::text::flatten(rest) == crate::text::flatten(rest.drop_last()) + rest.last());
        assert(x + crate::text::flatten(rest.drop_last()) + rest.last() =~= x + (crate::text::flatten(
            rest.drop_last(),
        ) + rest.last()));
    }
}

proof fn lemma_part_starts_bounds(t: Seq<char>, n: int, step: int, i: int, start: int)
    requires
        0 <= start,
    ensures
        forall|k: int|
            0 <= k < part_starts(t, n, step, i, start).len() ==> start < #[trigger] part_starts(
                t,
                n,
                step,
                i,
                start,
            )[k] < t.len(),
        forall|a: int, b: int|
            0 <= a < b < part_starts(t, n, step, i, start).len() ==> #[trigger] part_starts(
                t,
                n,
                step,
                i,
                start,
            )[a] < #[trigger] part_starts(t, n, step, i, start)[b],
    decreases n - i,
{
    let ps = part_starts(t, n, step, i, start);
    if i < n {
        let cut = cut_point(t, step, i, start);
        if cut > start && cut < t.len() {
            lemma_part_starts_bounds(t, n, step, i + 1, cut);
            let r = part_starts(t, n, step, i + 1, cut);
            assert(ps == seq![cut] + r);
            assert forall|k: int| 0 <= k < ps.len() implies start < #[trigger] ps[k] < t.len() by {
                if k > 0 {
                    assert(ps[k] == r[k - 1]);
                }
            }
            assert forall|a: int, b: int| 0 <= a < b < ps.len() implies #[trigger] ps[a] < #[trigger] ps[b] by {
                assert(ps[b] == r[b - 1]);
                if a > 0 {
                    assert(ps[a] == r[a - 1]);
                }
            }
        } else {
            lemma_part_starts_bounds(t, n, step, i + 1, start);
            assert(ps == part_starts(t, n, step, i + 1, start));
        }
    } else {
        assert(ps.len() == 0);
    }
}

proof fn lemma_parts_concat(t: Seq<char>, st: Seq<int>)
    requires
        st.len() >= 1,
        forall|a: int, b: int| 0 <= a < b < st.len() ==> #[trigger] st[a] < #[trigger] st[b],
        forall|a: int| 0 <= a < st.len() ==> 0 <= #[trigger] st[a] <= t.len(),
    ensures
        crate::text::flatten(parts_between(t, st)) == t.subrange(st[0], t.len() as int),
    decreases st.len(),
{
    if st.len() == 1 {
        lemma_flatten_prepend(t.subrange(st[0], t.len() as int), Seq::empty());
        assert(seq![t.subrange(st[0], t.len() as int)] + Seq::<Seq<char>>::empty() =~= seq![
            t.subrange(st[0], t.len() as int),
        ]);
        assert(t.subrange(st[0], t.len() as int) + Seq::<char>::empty() =~= t.subrange(st[0], t.len() as int));
    } else {
        let rest = st.drop_first();
        assert forall|a: int, b: int| 0 <= a < b < rest.len() implies #[trigger] rest[a] < #[trigger] rest[b] by {
            assert(rest[a] == st[a + 1] && rest[b] == st[b + 1]);
        }
        assert forall|a: int| 0 <= a < rest.len() implies 0 <= #[trigger] rest[a] <= t.len() by {
            assert(rest[a] == st[a + 1]);
        }
        lemma_parts_concat(t, rest);
        assert(st[0] < st[1]);
        lemma_flatten_prepend(t.subrange(st[0], st[1]), parts_between(t, rest));
        assert(t.subrange(st[0], st[1]) + t.subrange(st[1], t.len() as int) =~= t.subrange(
            st[0],
            t.len() as int,
        ));
    }
}

/// The parts of a cut text, read in order, give the text back.
pub proof fn law_split_gives_back(t: Seq<char>, n: int)
    requires
        n >= 1,
    ensures
        crate::text::flatten(split_spec(t, n)) == t,
{
    let total = offset(t, t.len() as int);
    let ps = part_starts(t, n, total / n, 1, 0);
    lemma_part_starts_bounds(t, n, total / n, 1, 0);
    let st = seq![0int] + ps;
    assert forall|a: int, b: int| 0 <= a < b < st.len() implies #[trigger] st[a] < #[trigger] st[b] by {
        assert(st[b] == ps[b - 1]);
        if a > 0 {
            assert(st[a] == ps[a - 1]);
        }
    }
    assert forall|a: int| 0 <= a < st.len() implies 0 <= #[trigger] st[a] <= t.len() by {
        if a > 0 {
            assert(st[a] == ps[a - 1]);
        }
    }
    lemma_parts_concat(t, st);
    assert(t.subrange(0, t.len() as int) =~= t);
}

// --- the breakdowns ------------------------------------------------------------------------

/// File name of the summary model in the models folder.
pub const MODEL_FILE: &'static str = "Qwen3-4B-Q4_K_M.gguf";
/// Where the summary model is downloaded from.
pub const MODEL_URL: &'static str = "https://huggingface.co/unsloth/Qwen3-4B-GGUF/resolve/main/Qwen3-4B-Q4_K_M.gguf";
/// Size of the summary model, in megabytes.
pub const MODEL_MB: u64 = 2440;

/// Tokens of transcript per part: the rest of the context is for the
/// instructions and the answer.
pub const PART_BUDGET: usize = 12000;
/// Context size for summaries, answers and breakdowns.
pub const N_CTX: i32 = 16384;
/// Answer budget of a summary of a short recording.
pub const MAX_TOKENS: i32 = 2000;
/// Answer budget of the points of one part.
pub const PART_TOKENS: i32 = 1600;
/// Answer budget of the final pass of a long summary.
pub const MERGE_TOKENS: i32 = 3500;
/// Answer budget of a question.
pub const ASK_TOKENS: i32 = 700;
/// Answer budget of decisions and tasks.
pub const TASKS_TOKENS: i32 = 1500;
/// Answer budget of a letter.
pub const LETTER_TOKENS: i32 = 1200;
/// Answer budget of an outline.
pub const OUTLINE_TOKENS: i32 = 900;
/// Answer budget of the labelled-line breakdowns.
pub const LINES_TOKENS: i32 = 1200;
/// Answer budget of a post.
pub const POST_TOKENS: i32 = 600;
/// Lines in one pass of a translation.
pub const TRANSLATE_BATCH: usize = 20;
/// Answer budget of one pass of a translation.
pub const TRANSLATE_TOKENS: i32 = 1800;

/// How the answers for a breakdown are put together by code.
#[derive(PartialEq, Eq, Structural, Clone, Copy)]
pub enum Assembler {
    Tasks,
    Plain,
    Outline,
    Theses,
    Advice,
    Cases,
    Qa,
    Quotes,
    Guest,
    Glossary,
}

/// One breakdown of a recording: the prompt for a part (and for a short
/// recording), the prompt of a final pass if there is one, the answer
/// budget, the transcript budget of a part, how the answers are put
/// together, and whether the transcript lines carry times.
#[derive(Clone, Copy)]
pub struct Breakdown {
    pub id: &'static str,
    pub part_prompt: &'static str,
    pub merge_prompt: Option<&'static str>,
    pub tokens: i32,
    pub budget: usize,
    pub assemble: Assembler,
    pub timed: bool,
}

/// All breakdowns; which ones are offered depends on the kind of recording.
pub open spec fn breakdown_table() -> Seq<Breakdown> {
    seq![
        Breakdown { id: "tasks", part_prompt: TASKS_PART_PROMPT, merge_prompt: None, tokens: TASKS_TOKENS, budget: PART_BUDGET, assemble: Assembler::Tasks, timed: true },
        Breakdown { id: "letter", part_prompt: LETTER_PART_PROMPT, merge_prompt: Some(LETTER_MERGE_PROMPT), tokens: LETTER_TOKENS, budget: PART_BUDGET, assemble: Assembler::Plain, timed: false },
        Breakdown { id: "outline", part_prompt: OUTLINE_PROMPT, merge_prompt: None, tokens: OUTLINE_TOKENS, budget: 6000, assemble: Assembler::Outline, timed: true },
        Breakdown { id: "theses", part_prompt: THESES_PROMPT, merge_prompt: None, tokens: LINES_TOKENS, budget: PART_BUDGET, assemble: Assembler::Theses, timed: true },
        Breakdown { id: "advice", part_prompt: ADVICE_PROMPT, merge_prompt: None, tokens: LINES_TOKENS, budget: PART_BUDGET, assemble: Assembler::Advice, timed: true },
        Breakdown { id: "cases", part_prompt: CASES_PROMPT, merge_prompt: None, tokens: LINES_TOKENS, budget: PART_BUDGET, assemble: Assembler::Cases, timed: true },
        Breakdown { id: "qa_session", part_prompt: QA_PROMPT, merge_prompt: None, tokens: LINES_TOKENS, budget: PART_BUDGET, assemble: Assembler::Qa, timed: true },
        Breakdown { id: "quotes", part_prompt: QUOTES_PROMPT, merge_prompt: None, tokens: LINES_TOKENS, budget: PART_BUDGET, assemble: Assembler::Quotes, timed: true },
        Breakdown { id: "guest", part_prompt: GUEST_PROMPT, merge_prompt: None, tokens: LINES_TOKENS, budget: PART_BUDGET, assemble: Assembler::Guest, timed: true },
        Breakdown { id: "glossary", part_prompt: GLOSSARY_PROMPT, merge_prompt: None, tokens: LINES_TOKENS, budget: PART_BUDGET, assemble: Assembler::Glossary, timed: true },
        Breakdown { id: "post", part_prompt: LETTER_PART_PROMPT, merge_prompt: Some(POST_MERGE_PROMPT), tokens: POST_TOKENS, budget: PART_BUDGET, assemble: Assembler::Plain, timed: false },
    ]
}

/// The first breakdown from row `i` on with the given id.
pub open spec fn breakdown_from(id: Seq<char>, i: int) -> Option<Breakdown>
    decreases breakdown_table().len() - i,
{
    if i < 0 || i >= breakdown_table().len() {
        None
    } else if breakdown_table()[i].id@ == id {
        Some(breakdown_table()[i])
    } else {
        breakdown_from(id, i + 1)
    }
}

fn breakdowns() -> (r: Vec<Breakdown>)
    ensures
        r@ == breakdown_table(),
{
    let r = vec![
        Breakdown { id: "tasks", part_prompt: TASKS_PART_PROMPT, merge_prompt: None, tokens: TASKS_TOKENS, budget: PART_BUDGET, assemble: Assembler::Tasks, timed: true },
        Breakdown { id: "letter", part_prompt: LETTER_PART_PROMPT, merge_prompt: Some(LETTER_MERGE_PROMPT), tokens: LETTER_TOKENS, budget: PART_BUDGET, assemble: Assembler::Plain, timed: false },
        Breakdown { id: "outline", part_prompt: OUTLINE_PROMPT, merge_prompt: None, tokens: OUTLINE_TOKENS, budget: PART_BUDGET / 2, assemble: Assembler::Outline, timed: true },
        Breakdown { id: "theses", part_prompt: THESES_PROMPT, merge_prompt: None, tokens: LINES_TOKENS, budget: PART_BUDGET, assemble: Assembler::Theses, timed: true },
        Breakdown { id: "advice", part_prompt: ADVICE_PROMPT, merge_prompt: None, tokens: LINES_TOKENS, budget: PART_BUDGET, assemble: Assembler::Advice, timed: true },
        Breakdown { id: "cases", part_prompt: CASES_PROMPT, merge_prompt: None, tokens: LINES_TOKENS, budget: PART_BUDGET, assemble: Assembler::Cases, timed: true },
        Breakdown { id: "qa_session", part_prompt: QA_PROMPT, merge_prompt: None, tokens: LINES_TOKENS, budget: PART_BUDGET, assemble: Assembler::Qa, timed: true },
        Breakdown { id: "quotes", part_prompt: QUOTES_PROMPT, merge_prompt: None, tokens: LINES_TOKENS, budget: PART_BUDGET, assemble: Assembler::Quotes, timed: true },
        Breakdown { id: "guest", part_prompt: GUEST_PROMPT, merge_prompt: None, tokens: LINES_TOKENS, budget: PART_BUDGET, assemble: Assembler::Guest, timed: true },
        Breakdown { id: "glossary", part_prompt: GLOSSARY_PROMPT, merge_prompt: None, tokens: LINES_TOKENS, budget: PART_BUDGET, assemble: Assembler::Glossary, timed: true },
        Breakdown { id: "post", part_prompt: LETTER_PART_PROMPT, merge_prompt: Some(POST_MERGE_PROMPT), tokens: POST_TOKENS, budget: PART_BUDGET, assemble: Assembler::Plain, timed: false },
    ];
    assert(r@ =~= breakdown_table());
    r
}

/// The breakdown with the given id, if there is one.
pub fn breakdown(id: &str) -> (r: Option<Breakdown>)
    ensures
        r == breakdown_from(id@, 0),
{
    let table = breakdowns();
    let c = chars_of(id);
    let mut i: usize = 0;
    while i < table.len()
        invariant
            i <= table@.len(),
            c@ == id@,
            table@ == breakdown_table(),
            breakdown_from(id@, 0) == breakdown_from(id@, i as int),
        decreases table.len() - i,
    {
        if crate::text::eq_chars(&chars_of(table[i].id), &c) {
            return Some(table[i]);
        }
        i += 1;
    }
    None
}

/// The prompt for a recording short enough for one pass: a letter and a
/// post have their own, the others use the prompt for a part.
pub fn whole_prompt(b: &Breakdown) -> (r: &'static str)
    ensures
        r == (if b.id@ == "letter"@ {
            LETTER_PROMPT
        } else if b.id@ == "post"@ {
            POST_WHOLE_PROMPT
        } else {
            b.part_prompt
        }),
{
    let id = chars_of(b.id);
    if crate::text::eq_chars(&id, &chars_of("letter")) {
        LETTER_PROMPT
    } else if crate::text::eq_chars(&id, &chars_of("post")) {
        POST_WHOLE_PROMPT
    } else {
        b.part_prompt
    }
}

/// What an assembler makes of the answers.
pub open spec fn assembled(a: Assembler, pieces: Seq<Seq<char>>) -> Seq<char> {
    match a {
        Assembler::Tasks => tasks(pieces),
        Assembler::Plain => plain(pieces),
        Assembler::Outline => outline(pieces),
        Assembler::Theses => theses(pieces),
        Assembler::Advice => advice(pieces),
        Assembler::Cases => cases(pieces),
        Assembler::Qa => qa(pieces),
        Assembler::Quotes => quotes(pieces),
        Assembler::Guest => guest(pieces),
        Assembler::Glossary => glossary(pieces),
    }
}

/// Puts the model's answers for a breakdown together.
pub fn assemble(a: Assembler, pieces: &[String]) -> (r: String)
    ensures
        r@ == assembled(a, texts(pieces@)),
{
    match a {
        Assembler::Tasks => assemble_tasks(pieces),
        Assembler::Plain => assemble_plain(pieces),
        Assembler::Outline => assemble_outline(pieces),
        Assembler::Theses => assemble_theses(pieces),
        Assembler::Advice => assemble_advice(pieces),
        Assembler::Cases => assemble_cases(pieces),
        Assembler::Qa => assemble_qa(pieces),
        Assembler::Quotes => assemble_quotes(pieces),
        Assembler::Guest => assemble_guest(pieces),
        Assembler::Glossary => assemble_glossary(pieces),
    }
}

} // verus!
