//! Text as sequences of characters: the handful of string operations the
//! rest of the library is built from, each with the meaning it has in std.

use vstd::prelude::*;

verus! {

// --- Unicode facts that std computes from its tables ------------------------

/// Whether std's `char::is_whitespace` holds (Unicode White_Space property).
pub uninterp spec fn unicode_whitespace(c: char) -> bool;

/// Whether std's `char::is_alphabetic` holds (Unicode Alphabetic property).
pub uninterp spec fn unicode_alphabetic(c: char) -> bool;

/// Whether std's `char::is_alphanumeric` holds (Alphabetic or Numeric).
pub uninterp spec fn unicode_alphanumeric(c: char) -> bool;

/// Whether std's `char::is_uppercase` holds (Unicode Uppercase property).
pub uninterp spec fn unicode_uppercase(c: char) -> bool;

/// What std's `char::to_uppercase` yields for a character.
pub uninterp spec fn unicode_upper(c: char) -> Seq<char>;

/// What std's `str::to_lowercase` yields for a whole string.
pub uninterp spec fn unicode_lower(s: Seq<char>) -> Seq<char>;

/// `char::is_whitespace` from std. Nothing is claimed about which characters
/// are whitespace beyond the name: the Unicode table is not restated.
#[verifier::external_body]
pub(crate) fn is_whitespace(c: char) -> (r: bool)
    ensures
        r == unicode_whitespace(c),
{
    c.is_whitespace()
}

/// `char::is_alphabetic` from std; the result is named, not restated.
#[verifier::external_body]
pub(crate) fn is_alphabetic(c: char) -> (r: bool)
    ensures
        r == unicode_alphabetic(c),
{
    c.is_alphabetic()
}

/// `char::is_alphanumeric` from std; the result is named, not restated.
#[verifier::external_body]
pub(crate) fn is_alphanumeric(c: char) -> (r: bool)
    ensures
        r == unicode_alphanumeric(c),
{
    c.is_alphanumeric()
}

/// `char::is_uppercase` from std; the result is named, not restated.
#[verifier::external_body]
pub(crate) fn is_uppercase(c: char) -> (r: bool)
    ensures
        r == unicode_uppercase(c),
{
    c.is_uppercase()
}

/// `char::to_uppercase` from std, collected; the result is named.
#[verifier::external_body]
pub(crate) fn to_upper(c: char) -> (r: Vec<char>)
    ensures
        r@ == unicode_upper(c),
{
    c.to_uppercase().collect()
}

/// `str::to_lowercase` from std, as characters; the result is named.
#[verifier::external_body]
pub(crate) fn to_lower(s: &[char]) -> (r: Vec<char>)
    ensures
        r@ == unicode_lower(s@),
{
    s.iter().collect::<String>().to_lowercase().chars().collect()
}

/// `String::push` from std: the character goes to the end.
#[verifier::external_body]
pub(crate) fn push_char(s: &mut String, c: char)
    ensures
        final(s)@ == old(s)@.push(c),
{
    s.push(c);
}

// --- conversions -------------------------------------------------------------

/// The characters of a string.
pub fn chars_of(s: &str) -> (v: Vec<char>)
    ensures
        v@ == s@,
{
    let mut v: Vec<char> = Vec::new();
    for c in it: s.chars()
        invariant
            v@ == it.seq().take(it.index() as int),
            it.seq() == s@,
    {
        v.push(c);
    }
    v
}

/// A string made of the given characters.
pub fn string_of(v: &[char]) -> (s: String)
    ensures
        s@ == v@,
{
    let mut s = String::new();
    let mut i: usize = 0;
    while i < v.len()
        invariant
            i <= v.len(),
            s@ == v@.take(i as int),
        decreases v.len() - i,
    {
        push_char(&mut s, v[i]);
        assert(v@.take(i as int + 1) =~= v@.take(i as int).push(v@[i as int]));
        i += 1;
    }
    assert(v@.take(v@.len() as int) =~= v@);
    s
}

// --- predicates as values -----------------------------------------------------

/// Whitespace as a predicate.
pub open spec fn ws() -> spec_fn(char) -> bool {
    |c: char| unicode_whitespace(c)
}

/// Membership in a fixed set of characters as a predicate.
pub open spec fn one_of(set: Seq<char>) -> spec_fn(char) -> bool {
    |c: char| set.contains(c)
}

// --- trimming ------------------------------------------------------------------

/// How many characters at the start satisfy `p`.
pub open spec fn lead(s: Seq<char>, p: spec_fn(char) -> bool) -> nat
    decreases s.len(),
{
    if s.len() > 0 && p(s[0]) {
        1 + lead(s.drop_first(), p)
    } else {
        0
    }
}

/// How many characters at the end satisfy `p`.
pub open spec fn trail(s: Seq<char>, p: spec_fn(char) -> bool) -> nat
    decreases s.len(),
{
    if s.len() > 0 && p(s.last()) {
        1 + trail(s.drop_last(), p)
    } else {
        0
    }
}

/// `trim_start_matches` with a predicate.
pub open spec fn trim_start_by(s: Seq<char>, p: spec_fn(char) -> bool) -> Seq<char> {
    s.skip(lead(s, p) as int)
}

/// `trim_end_matches` with a predicate.
pub open spec fn trim_end_by(s: Seq<char>, p: spec_fn(char) -> bool) -> Seq<char> {
    s.take(s.len() - trail(s, p))
}

/// `trim_matches` with a predicate: both ends.
pub open spec fn trim_by(s: Seq<char>, p: spec_fn(char) -> bool) -> Seq<char> {
    trim_end_by(trim_start_by(s, p), p)
}

/// `str::trim`.
pub open spec fn trim(s: Seq<char>) -> Seq<char> {
    trim_by(s, ws())
}

pub proof fn lemma_lead_bound(s: Seq<char>, p: spec_fn(char) -> bool)
    ensures
        lead(s, p) <= s.len(),
        forall|i: int| 0 <= i < lead(s, p) ==> #[trigger] p(s[i]),
        lead(s, p) < s.len() ==> !p(s[lead(s, p) as int]),
    decreases s.len(),
{
    if s.len() > 0 && p(s[0]) {
        lemma_lead_bound(s.drop_first(), p);
        assert forall|i: int| 0 <= i < lead(s, p) implies #[trigger] p(s[i]) by {
            if i > 0 {
                assert(s[i] == s.drop_first()[i - 1]);
            }
        }
        if lead(s, p) < s.len() {
            assert(s[lead(s, p) as int] == s.drop_first()[lead(s, p) - 1]);
        }
    }
}

pub proof fn lemma_trail_bound(s: Seq<char>, p: spec_fn(char) -> bool)
    ensures
        trail(s, p) <= s.len(),
        forall|i: int| s.len() - trail(s, p) <= i < s.len() ==> #[trigger] p(s[i]),
        trail(s, p) < s.len() ==> !p(s[s.len() - trail(s, p) - 1]),
    decreases s.len(),
{
    if s.len() > 0 && p(s.last()) {
        lemma_trail_bound(s.drop_last(), p);
        assert forall|i: int| s.len() - trail(s, p) <= i < s.len() implies #[trigger] p(s[i]) by {
            if i < s.len() - 1 {
                assert(s[i] == s.drop_last()[i]);
            }
        }
        if trail(s, p) < s.len() {
            assert(s[s.len() - trail(s, p) - 1] == s.drop_last()[s.len() - trail(s, p) - 1]);
        }
    }
}

/// `lead` is fixed by the first character that fails `p`.
pub proof fn lemma_lead_char(s: Seq<char>, p: spec_fn(char) -> bool, k: int)
    requires
        0 <= k <= s.len(),
        forall|i: int| 0 <= i < k ==> #[trigger] p(s[i]),
        k == s.len() || !p(s[k]),
    ensures
        lead(s, p) == k,
    decreases s.len(),
{
    if k > 0 {
        assert(p(s[0]));
        assert forall|i: int| 0 <= i < k - 1 implies #[trigger] p(s.drop_first()[i]) by {
            assert(s.drop_first()[i] == s[i + 1]);
        }
        if k - 1 < s.len() - 1 {
            assert(s.drop_first()[k - 1] == s[k]);
        }
        lemma_lead_char(s.drop_first(), p, k - 1);
    }
}

/// `trail` is fixed by the last character that fails `p`.
pub proof fn lemma_trail_char(s: Seq<char>, p: spec_fn(char) -> bool, k: int)
    requires
        0 <= k <= s.len(),
        forall|i: int| s.len() - k <= i < s.len() ==> #[trigger] p(s[i]),
        k == s.len() || !p(s[s.len() - k - 1]),
    ensures
        trail(s, p) == k,
    decreases s.len(),
{
    if k > 0 {
        assert(p(s[s.len() - 1]));
        assert forall|i: int| s.len() - 1 - (k - 1) <= i < s.len() - 1 implies #[trigger] p(
            s.drop_last()[i],
        ) by {
            assert(s.drop_last()[i] == s[i]);
        }
        if k - 1 < s.len() - 1 {
            assert(s.drop_last()[s.len() - 1 - (k - 1) - 1] == s[s.len() - k - 1]);
        }
        lemma_trail_char(s.drop_last(), p, k - 1);
    }
}

/// Trimming never lengthens.
pub proof fn lemma_trim_len(s: Seq<char>)
    ensures
        trim(s).len() <= s.len(),
{
    lemma_lead_bound(s, ws());
    let t = trim_start_by(s, ws());
    lemma_trail_bound(t, ws());
}

/// Length of the run of whitespace at the start.
pub fn lead_ws(s: &[char], from: usize, to: usize) -> (k: usize)
    requires
        from <= to <= s.len(),
    ensures
        k == lead(s@.subrange(from as int, to as int), ws()),
        k <= to - from,
{
    let mut k: usize = 0;
    while from + k < to && is_whitespace(s[from + k])
        invariant
            from + k <= to <= s.len(),
            forall|i: int| 0 <= i < k ==> #[trigger] ws()(s@.subrange(from as int, to as int)[i]),
        decreases to - from - k,
    {
        k += 1;
    }
    proof {
        lemma_lead_char(s@.subrange(from as int, to as int), ws(), k as int);
    }
    k
}

/// Length of the run of whitespace at the end.
pub fn trail_ws(s: &[char], from: usize, to: usize) -> (k: usize)
    requires
        from <= to <= s.len(),
    ensures
        k == trail(s@.subrange(from as int, to as int), ws()),
        k <= to - from,
{
    let mut k: usize = 0;
    while from + k < to && is_whitespace(s[to - k - 1])
        invariant
            from + k <= to <= s.len(),
            forall|i: int|
                (to - from) - k <= i < to - from ==> #[trigger] ws()(
                    s@.subrange(from as int, to as int)[i],
                ),
        decreases to - from - k,
    {
        k += 1;
    }
    proof {
        lemma_trail_char(s@.subrange(from as int, to as int), ws(), k as int);
    }
    k
}

/// Length of the run of characters from `set` at the start.
pub fn lead_set(s: &[char], from: usize, to: usize, set: &[char]) -> (k: usize)
    requires
        from <= to <= s.len(),
    ensures
        k == lead(s@.subrange(from as int, to as int), one_of(set@)),
        k <= to - from,
{
    let mut k: usize = 0;
    while from + k < to && contains_char(set, s[from + k])
        invariant
            from + k <= to <= s.len(),
            forall|i: int|
                0 <= i < k ==> #[trigger] one_of(set@)(s@.subrange(from as int, to as int)[i]),
        decreases to - from - k,
    {
        k += 1;
    }
    proof {
        lemma_lead_char(s@.subrange(from as int, to as int), one_of(set@), k as int);
    }
    k
}

/// Length of the run of characters from `set` at the end.
pub fn trail_set(s: &[char], from: usize, to: usize, set: &[char]) -> (k: usize)
    requires
        from <= to <= s.len(),
    ensures
        k == trail(s@.subrange(from as int, to as int), one_of(set@)),
        k <= to - from,
{
    let mut k: usize = 0;
    while from + k < to && contains_char(set, s[to - k - 1])
        invariant
            from + k <= to <= s.len(),
            forall|i: int|
                (to - from) - k <= i < to - from ==> #[trigger] one_of(set@)(
                    s@.subrange(from as int, to as int)[i],
                ),
        decreases to - from - k,
    {
        k += 1;
    }
    proof {
        lemma_trail_char(s@.subrange(from as int, to as int), one_of(set@), k as int);
    }
    k
}

/// Whether `c` is one of `set`.
pub fn contains_char(set: &[char], c: char) -> (r: bool)
    ensures
        r == set@.contains(c),
{
    let mut i: usize = 0;
    while i < set.len()
        invariant
            i <= set.len(),
            forall|j: int| 0 <= j < i ==> set@[j] != c,
        decreases set.len() - i,
    {
        if set[i] == c {
            return true;
        }
        i += 1;
    }
    false
}

/// `str::trim` on characters.
pub fn trim_chars(s: &[char]) -> (r: Vec<char>)
    ensures
        r@ == trim(s@),
{
    let a = lead_ws(s, 0, s.len());
    let b = trail_ws(s, a, s.len());
    proof {
        assert(s@.subrange(0, s@.len() as int) =~= s@);
        assert(trim_start_by(s@, ws()) =~= s@.subrange(a as int, s@.len() as int));
    }
    let r = slice_vec(s, a, s.len() - b);
    proof {
        assert(r@ =~= trim(s@));
    }
    r
}

/// `trim_matches` with a set of characters.
pub fn trim_set(s: &[char], set: &[char]) -> (r: Vec<char>)
    ensures
        r@ == trim_by(s@, one_of(set@)),
{
    let a = lead_set(s, 0, s.len(), set);
    let b = trail_set(s, a, s.len(), set);
    proof {
        assert(s@.subrange(0, s@.len() as int) =~= s@);
        assert(trim_start_by(s@, one_of(set@)) =~= s@.subrange(a as int, s@.len() as int));
    }
    let r = slice_vec(s, a, s.len() - b);
    proof {
        assert(r@ =~= trim_by(s@, one_of(set@)));
    }
    r
}

/// `trim_start_matches` with a set of characters.
pub fn trim_start_set(s: &[char], set: &[char]) -> (r: Vec<char>)
    ensures
        r@ == trim_start_by(s@, one_of(set@)),
{
    let a = lead_set(s, 0, s.len(), set);
    proof {
        assert(s@.subrange(0, s@.len() as int) =~= s@);
    }
    let r = slice_vec(s, a, s.len());
    proof {
        assert(r@ =~= trim_start_by(s@, one_of(set@)));
    }
    r
}

/// `trim_end_matches` with a set of characters.
pub fn trim_end_set(s: &[char], set: &[char]) -> (r: Vec<char>)
    ensures
        r@ == trim_end_by(s@, one_of(set@)),
{
    let b = trail_set(s, 0, s.len(), set);
    proof {
        assert(s@.subrange(0, s@.len() as int) =~= s@);
    }
    let r = slice_vec(s, 0, s.len() - b);
    proof {
        assert(r@ =~= trim_end_by(s@, one_of(set@)));
    }
    r
}

/// A copy of `s[from..to]`.
pub fn slice_vec(s: &[char], from: usize, to: usize) -> (r: Vec<char>)
    requires
        from <= to <= s.len(),
    ensures
        r@ == s@.subrange(from as int, to as int),
{
    let mut r: Vec<char> = Vec::new();
    let mut i = from;
    while i < to
        invariant
            from <= i <= to <= s.len(),
            r@ == s@.subrange(from as int, i as int),
        decreases to - i,
    {
        r.push(s[i]);
        assert(s@.subrange(from as int, i + 1) =~= s@.subrange(from as int, i as int).push(
            s@[i as int],
        ));
        i += 1;
    }
    r
}

/// `a ++ b`.
pub fn concat(a: &[char], b: &[char]) -> (r: Vec<char>)
    ensures
        r@ == a@ + b@,
{
    let mut r = slice_vec(a, 0, a.len());
    proof {
        assert(a@.subrange(0, a@.len() as int) =~= a@);
    }
    append(&mut r, b);
    r
}

/// Pushes all of `b` onto `r`.
pub fn append(r: &mut Vec<char>, b: &[char])
    ensures
        final(r)@ == old(r)@ + b@,
{
    let mut i: usize = 0;
    while i < b.len()
        invariant
            i <= b.len(),
            r@ == old(r)@ + b@.take(i as int),
        decreases b.len() - i,
    {
        r.push(b[i]);
        assert(b@.take(i + 1) =~= b@.take(i as int).push(b@[i as int]));
        i += 1;
    }
    assert(b@.take(b@.len() as int) =~= b@);
}

// --- prefixes, suffixes, search -------------------------------------------------

/// `starts_with`.
pub open spec fn starts(s: Seq<char>, p: Seq<char>) -> bool {
    p.len() <= s.len() && s.take(p.len() as int) =~= p
}

/// `ends_with`.
pub open spec fn ends(s: Seq<char>, p: Seq<char>) -> bool {
    p.len() <= s.len() && s.skip(s.len() - p.len()) =~= p
}

/// `p` occurs in `s` at `i`.
pub open spec fn occurs_at(s: Seq<char>, p: Seq<char>, i: int) -> bool {
    0 <= i && i + p.len() <= s.len() && s.subrange(i, i + p.len()) =~= p
}

/// `contains` for a pattern.
pub open spec fn has(s: Seq<char>, p: Seq<char>) -> bool {
    exists|i: int| occurs_at(s, p, i)
}

/// Whether `p` occurs in `s` at position `at`.
pub fn match_at(s: &[char], at: usize, p: &[char]) -> (r: bool)
    ensures
        r == occurs_at(s@, p@, at as int),
{
    if at > s.len() || p.len() > s.len() - at {
        return false;
    }
    let mut j: usize = 0;
    while j < p.len()
        invariant
            j <= p.len(),
            at + p.len() <= s.len(),
            forall|k: int| 0 <= k < j ==> s@[at + k] == p@[k],
        decreases p.len() - j,
    {
        if s[at + j] != p[j] {
            assert(s@.subrange(at as int, at + p.len())[j as int] != p@[j as int]);
            return false;
        }
        j += 1;
    }
    assert(s@.subrange(at as int, at + p.len()) =~= p@);
    true
}

/// `starts_with`.
pub fn starts_with(s: &[char], p: &[char]) -> (r: bool)
    ensures
        r == starts(s@, p@),
{
    let r = match_at(s, 0, p);
    proof {
        if r {
            assert(s@.take(p@.len() as int) =~= s@.subrange(0, p@.len() as int));
        } else if p@.len() <= s@.len() {
            assert(s@.take(p@.len() as int) =~= s@.subrange(0, p@.len() as int));
        }
    }
    r
}

/// `ends_with`.
pub fn ends_with(s: &[char], p: &[char]) -> (r: bool)
    ensures
        r == ends(s@, p@),
{
    if p.len() > s.len() {
        return false;
    }
    let r = match_at(s, s.len() - p.len(), p);
    proof {
        assert(s@.skip(s@.len() - p@.len()) =~= s@.subrange(
            s@.len() - p@.len(),
            s@.len() as int,
        ));
    }
    r
}

/// First occurrence of `p` in `s` at or after `from`.
pub fn find_from(s: &[char], from: usize, p: &[char]) -> (r: Option<usize>)
    requires
        from <= s.len(),
    ensures
        match r {
            Some(i) => from <= i && occurs_at(s@, p@, i as int) && forall|j: int|
                from <= j < i ==> !occurs_at(s@, p@, j),
            None => forall|j: int| from <= j ==> !occurs_at(s@, p@, j),
        },
{
    let mut i = from;
    loop
        invariant
            from <= i <= s.len(),
            forall|j: int| from <= j < i ==> !occurs_at(s@, p@, j),
        decreases s.len() - i,
    {
        if match_at(s, i, p) {
            return Some(i);
        }
        if i == s.len() {
            assert forall|j: int| from <= j implies !occurs_at(s@, p@, j) by {
                if j > i {
                }
            }
            return None;
        }
        i += 1;
    }
}

/// The first place at or after `i` where `p` occurs in `s`.
pub open spec fn next_occ(s: Seq<char>, p: Seq<char>, i: int) -> Option<int>
    decreases s.len() + 1 - i,
{
    if i < 0 || i > s.len() {
        None
    } else if occurs_at(s, p, i) {
        Some(i)
    } else {
        next_occ(s, p, i + 1)
    }
}

pub proof fn lemma_next_occ_found(s: Seq<char>, p: Seq<char>, from: int, i: int)
    requires
        0 <= from <= i,
        occurs_at(s, p, i),
        forall|j: int| from <= j < i ==> !occurs_at(s, p, j),
    ensures
        next_occ(s, p, from) == Some(i),
    decreases i - from,
{
    if from < i {
        lemma_next_occ_found(s, p, from + 1, i);
    }
}

pub proof fn lemma_next_occ_none(s: Seq<char>, p: Seq<char>, from: int)
    requires
        0 <= from,
        forall|j: int| from <= j ==> !occurs_at(s, p, j),
    ensures
        next_occ(s, p, from) == None::<int>,
    decreases s.len() + 1 - from,
{
    if from <= s.len() {
        lemma_next_occ_none(s, p, from + 1);
    }
}

/// `contains` for a pattern.
pub fn contains(s: &[char], p: &[char]) -> (r: bool)
    ensures
        r == has(s@, p@),
{
    match find_from(s, 0, p) {
        Some(i) => true,
        None => {
            assert forall|j: int| !occurs_at(s@, p@, j) by {
                if j < 0 {
                }
            }
            false
        },
    }
}

// --- splitting -----------------------------------------------------------------------

/// `split(d)`: the pieces between occurrences of `d`; never empty.
pub open spec fn split_on(s: Seq<char>, d: char) -> Seq<Seq<char>>
    decreases s.len(),
{
    if s.len() == 0 {
        seq![Seq::<char>::empty()]
    } else {
        let p = split_on(s.drop_last(), d);
        if s.last() == d {
            p.push(Seq::<char>::empty())
        } else {
            p.update(p.len() - 1, p.last().push(s.last()))
        }
    }
}

pub proof fn lemma_split_nonempty(s: Seq<char>, d: char)
    ensures
        split_on(s, d).len() >= 1,
    decreases s.len(),
{
    if s.len() > 0 {
        lemma_split_nonempty(s.drop_last(), d);
    }
}

/// `str::lines`: split at '\n', a '\r' before the '\n' goes, the piece after
/// a final '\n' is not a line.
pub open spec fn lines(s: Seq<char>) -> Seq<Seq<char>> {
    let parts = split_on(s, '\n');
    let body = parts.drop_last().map_values(|l: Seq<char>| strip_cr(l));
    if parts.last().len() == 0 {
        body
    } else {
        body.push(parts.last())
    }
}

/// A line that ended with "\r\n" loses its '\r'.
pub open spec fn strip_cr(l: Seq<char>) -> Seq<char> {
    if l.len() > 0 && l.last() == '\r' {
        l.drop_last()
    } else {
        l
    }
}

/// The pieces of `s` between occurrences of `d`.
pub fn split_char(s: &[char], d: char) -> (r: Vec<Vec<char>>)
    ensures
        r@.len() == split_on(s@, d).len(),
        forall|i: int| 0 <= i < r@.len() ==> #[trigger] r@[i]@ == split_on(s@, d)[i],
{
    let mut done: Vec<Vec<char>> = Vec::new();
    let mut cur: Vec<char> = Vec::new();
    let mut i: usize = 0;
    while i < s.len()
        invariant
            i <= s.len(),
            done@.len() + 1 == split_on(s@.take(i as int), d).len(),
            forall|k: int| 0 <= k < done@.len() ==> #[trigger] done@[k]@ == split_on(s@.take(i as int), d)[k],
            cur@ == split_on(s@.take(i as int), d).last(),
        decreases s.len() - i,
    {
        proof {
            assert(s@.take(i + 1).drop_last() =~= s@.take(i as int));
            lemma_split_nonempty(s@.take(i as int), d);
        }
        if s[i] == d {
            done.push(cur);
            cur = Vec::new();
        } else {
            cur.push(s[i]);
        }
        i += 1;
    }
    proof {
        assert(s@.take(s@.len() as int) =~= s@);
    }
    done.push(cur);
    done
}

/// `str::lines` on characters.
pub fn lines_of(s: &[char]) -> (r: Vec<Vec<char>>)
    ensures
        r@.len() == lines(s@).len(),
        forall|i: int| 0 <= i < r@.len() ==> #[trigger] r@[i]@ == lines(s@)[i],
{
    let parts = split_char(s, '\n');
    proof {
        lemma_split_nonempty(s@, '\n');
    }
    let n = parts.len();
    let mut out: Vec<Vec<char>> = Vec::new();
    let mut i: usize = 0;
    while i + 1 < n
        invariant
            n == parts@.len(),
            n == split_on(s@, '\n').len(),
            n >= 1,
            i + 1 <= n,
            forall|k: int| 0 <= k < n ==> #[trigger] parts@[k]@ == split_on(s@, '\n')[k],
            out@.len() == i,
            forall|k: int| 0 <= k < i ==> #[trigger] out@[k]@ == strip_cr(split_on(s@, '\n')[k]),
        decreases n - i,
    {
        let l = &parts[i];
        if l.len() > 0 && l[l.len() - 1] == '\r' {
            out.push(slice_vec(l, 0, l.len() - 1));
            proof {
                assert(l@.subrange(0, l@.len() - 1) =~= l@.drop_last());
            }
        } else {
            out.push(slice_vec(l, 0, l.len()));
            proof {
                assert(l@.subrange(0, l@.len() as int) =~= l@);
            }
        }
        i += 1;
    }
    let last = &parts[n - 1];
    if last.len() > 0 {
        out.push(slice_vec(last, 0, last.len()));
        proof {
            assert(last@.subrange(0, last@.len() as int) =~= last@);
        }
    }
    proof {
        let parts_s = split_on(s@, '\n');
        let body = parts_s.drop_last().map_values(|l: Seq<char>| strip_cr(l));
        assert forall|k: int| 0 <= k < body.len() implies #[trigger] body[k] == out@[k]@ by {}
    }
    out
}

/// The concatenation of all pieces.
pub open spec fn flatten(v: Seq<Seq<char>>) -> Seq<char>
    decreases v.len(),
{
    if v.len() == 0 {
        Seq::empty()
    } else {
        flatten(v.drop_last()) + v.last()
    }
}

/// Pieces joined with a separator.
pub open spec fn join(v: Seq<Seq<char>>, sep: Seq<char>) -> Seq<char>
    decreases v.len(),
{
    if v.len() == 0 {
        Seq::empty()
    } else if v.len() == 1 {
        v[0]
    } else {
        join(v.drop_last(), sep) + sep + v.last()
    }
}

/// `[..].join(sep)` on character vectors.
pub fn join_chars(v: &Vec<Vec<char>>, sep: &[char]) -> (r: Vec<char>)
    ensures
        r@ == join(v@.map_values(|x: Vec<char>| x@), sep@),
{
    let ghost vv = v@.map_values(|x: Vec<char>| x@);
    let mut r: Vec<char> = Vec::new();
    let mut i: usize = 0;
    while i < v.len()
        invariant
            i <= v.len(),
            vv == v@.map_values(|x: Vec<char>| x@),
            r@ == join(vv.take(i as int), sep@),
        decreases v.len() - i,
    {
        proof {
            assert(vv.take(i + 1).drop_last() =~= vv.take(i as int));
        }
        if i > 0 {
            append(&mut r, sep);
        } else {
            proof {
                assert(vv.take(1) =~= seq![v@[0]@]);
            }
        }
        append(&mut r, &v[i]);
        i += 1;
    }
    proof {
        assert(vv.take(v@.len() as int) =~= vv);
    }
    r
}

// --- ASCII helpers (std's own definitions are these few lines) -------------------

/// `char::is_ascii_digit`: '0' through '9'.
pub open spec fn ascii_digit(c: char) -> bool {
    '0' <= c <= '9'
}

/// `char::to_ascii_lowercase`: ASCII capitals become small, all else stays.
pub open spec fn ascii_lower(c: char) -> char {
    if 'A' <= c <= 'Z' {
        ((c as u32) + 32) as char
    } else {
        c
    }
}

/// `str::eq_ignore_ascii_case`.
pub open spec fn eq_ascii_ci(a: Seq<char>, b: Seq<char>) -> bool {
    a.len() == b.len() && forall|i: int| 0 <= i < a.len() ==> ascii_lower(a[i]) == ascii_lower(b[i])
}

/// `char::to_ascii_lowercase`.
pub fn to_ascii_lower(c: char) -> (r: char)
    ensures
        r == ascii_lower(c),
{
    if 'A' <= c && c <= 'Z' {
        let u = (c as u32) + 32;
        proof {
            assert('a' as u32 <= u <= 'z' as u32);
        }
        char_of_ascii(u)
    } else {
        c
    }
}

/// The character with an ASCII code point.
pub fn char_of_ascii(u: u32) -> (c: char)
    requires
        u < 128,
    ensures
        c == u as char,
        c as u32 == u,
{
    let b = u as u8;
    let c = b as char;
    c
}

/// `str::eq_ignore_ascii_case`.
pub fn eq_ignore_ascii_case(a: &[char], b: &[char]) -> (r: bool)
    ensures
        r == eq_ascii_ci(a@, b@),
{
    if a.len() != b.len() {
        return false;
    }
    let mut i: usize = 0;
    while i < a.len()
        invariant
            i <= a.len(),
            a.len() == b.len(),
            forall|k: int| 0 <= k < i ==> ascii_lower(a@[k]) == ascii_lower(b@[k]),
        decreases a.len() - i,
    {
        if to_ascii_lower(a[i]) != to_ascii_lower(b[i]) {
            return false;
        }
        i += 1;
    }
    true
}

/// Whether two character sequences are equal.
pub fn eq_chars(a: &[char], b: &[char]) -> (r: bool)
    ensures
        r == (a@ == b@),
{
    if a.len() != b.len() {
        return false;
    }
    let mut i: usize = 0;
    while i < a.len()
        invariant
            i <= a.len(),
            a.len() == b.len(),
            forall|k: int| 0 <= k < i ==> a@[k] == b@[k],
        decreases a.len() - i,
    {
        if a[i] != b[i] {
            return false;
        }
        i += 1;
    }
    assert(a@ =~= b@);
    true
}

// --- single characters -------------------------------------------------------------

/// The first position at or after `i` where `c` stands.
pub open spec fn char_from(s: Seq<char>, c: char, i: int) -> Option<int>
    decreases s.len() - i,
{
    if i < 0 || i >= s.len() {
        None
    } else if s[i] == c {
        Some(i)
    } else {
        char_from(s, c, i + 1)
    }
}

/// What `char_from` finds: the first `c` at or after `i`, or none.
pub proof fn lemma_char_from(s: Seq<char>, c: char, i: int)
    requires
        0 <= i,
    ensures
        match char_from(s, c, i) {
            Some(j) => i <= j < s.len() && s[j] == c && forall|k: int| i <= k < j ==> s[k] != c,
            None => forall|k: int| i <= k < s.len() ==> s[k] != c,
        },
    decreases s.len() - i,
{
    if i < s.len() && s[i] != c {
        lemma_char_from(s, c, i + 1);
    }
}

/// `find(c)`: the first position of `c`.
pub open spec fn char_pos(s: Seq<char>, c: char) -> Option<int> {
    char_from(s, c, 0)
}

/// How many times `c` occurs.
pub open spec fn count_char(s: Seq<char>, c: char) -> nat
    decreases s.len(),
{
    if s.len() == 0 {
        0
    } else {
        count_char(s.drop_last(), c) + if s.last() == c { 1nat } else { 0nat }
    }
}

/// `find(c)` on characters.
pub fn find_char(s: &[char], c: char) -> (r: Option<usize>)
    ensures
        match r {
            Some(i) => char_pos(s@, c) == Some(i as int) && i < s@.len() && s@[i as int] == c
                && forall|k: int| 0 <= k < i ==> s@[k] != c,
            None => char_pos(s@, c) is None && forall|k: int| 0 <= k < s@.len() ==> s@[k] != c,
        },
{
    proof {
        lemma_char_from(s@, c, 0);
    }
    let mut i: usize = 0;
    while i < s.len()
        invariant
            i <= s.len(),
            char_from(s@, c, 0) == char_from(s@, c, i as int),
        decreases s.len() - i,
    {
        if s[i] == c {
            proof {
                lemma_char_from(s@, c, 0);
            }
            return Some(i);
        }
        i += 1;
    }
    None
}

/// How many times `c` occurs in `s`.
pub fn count_chars(s: &[char], c: char) -> (r: usize)
    ensures
        r == count_char(s@, c),
{
    let mut n: usize = 0;
    let mut i: usize = 0;
    while i < s.len()
        invariant
            i <= s.len(),
            n == count_char(s@.take(i as int), c),
            n <= i,
        decreases s.len() - i,
    {
        proof {
            assert(s@.take(i + 1).drop_last() =~= s@.take(i as int));
        }
        if s[i] == c {
            n += 1;
        }
        i += 1;
    }
    proof {
        assert(s@.take(s@.len() as int) =~= s@);
    }
    n
}

} // verus!
