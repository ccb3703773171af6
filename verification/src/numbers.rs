//! Decimal numbers in text: what std's `str::parse` accepts for integers, and
//! the digits `format!("{}")` writes.

use vstd::prelude::*;
use crate::text::ascii_digit;

verus! {

/// Value of one ASCII digit.
pub open spec fn digit_value(c: char) -> int {
    (c as u32) - ('0' as u32)
}

/// Whether every character is an ASCII digit.
pub open spec fn all_digits(s: Seq<char>) -> bool {
    forall|i: int| 0 <= i < s.len() ==> ascii_digit(#[trigger] s[i])
}

/// The number written by a run of ASCII digits.
pub open spec fn dec_value(s: Seq<char>) -> int
    decreases s.len(),
{
    if s.len() == 0 {
        0
    } else {
        dec_value(s.drop_last()) * 10 + digit_value(s.last())
    }
}

/// `str::parse::<uN>`: an optional '+', then at least one ASCII digit; the
/// value must not exceed `max`.
pub open spec fn parse_unsigned(s: Seq<char>, max: int) -> Option<int> {
    let body = if s.len() > 0 && s[0] == '+' { s.drop_first() } else { s };
    if body.len() > 0 && all_digits(body) && dec_value(body) <= max {
        Some(dec_value(body))
    } else {
        None
    }
}

/// `str::parse::<iN>`: an optional sign, then at least one ASCII digit; the
/// value must lie in `min..=max`.
pub open spec fn parse_signed(s: Seq<char>, min: int, max: int) -> Option<int> {
    let neg = s.len() > 0 && s[0] == '-';
    let body = if s.len() > 0 && (s[0] == '+' || s[0] == '-') { s.drop_first() } else { s };
    let v = if neg { -dec_value(body) } else { dec_value(body) };
    if body.len() > 0 && all_digits(body) && min <= v <= max {
        Some(v)
    } else {
        None
    }
}

pub proof fn lemma_dec_value_bound(s: Seq<char>)
    requires
        all_digits(s),
    ensures
        0 <= dec_value(s) < pow10(s.len()),
    decreases s.len(),
{
    if s.len() > 0 {
        assert(all_digits(s.drop_last())) by {
            assert forall|i: int| 0 <= i < s.drop_last().len() implies ascii_digit(
                #[trigger] s.drop_last()[i],
            ) by {
                assert(s.drop_last()[i] == s[i]);
            }
        }
        lemma_dec_value_bound(s.drop_last());
        assert(ascii_digit(s[s.len() - 1]));
    }
}

/// Ten to the power `n`.
pub open spec fn pow10(n: nat) -> int
    decreases n,
{
    if n == 0 {
        1
    } else {
        10 * pow10((n - 1) as nat)
    }
}

/// Value of the digits `s[from..to]`, when they are all ASCII digits and
/// there are at most eighteen of them.
pub fn digits_value(s: &[char], from: usize, to: usize) -> (r: Option<u64>)
    requires
        from <= to <= s.len(),
        to - from <= 18,
    ensures
        match r {
            Some(v) => all_digits(s@.subrange(from as int, to as int)) && v == dec_value(
                s@.subrange(from as int, to as int),
            ),
            None => !all_digits(s@.subrange(from as int, to as int)),
        },
        r is Some ==> r->0 < pow10((to - from) as nat),
{
    let ghost t = s@.subrange(from as int, to as int);
    let mut v: u64 = 0;
    let mut i = from;
    while i < to
        invariant
            from <= i <= to <= s.len(),
            to - from <= 18,
            t == s@.subrange(from as int, to as int),
            all_digits(t.take(i - from)),
            v == dec_value(t.take(i - from)),
            v < pow10((i - from) as nat),
        decreases to - i,
    {
        let c = s[i];
        if !('0' <= c && c <= '9') {
            assert(t[i - from] == c);
            return None;
        }
        proof {
            assert(t.take(i - from + 1).drop_last() =~= t.take(i - from));
            assert(t.take(i - from + 1).last() == c);
            assert(pow10((i - from + 1) as nat) == 10 * pow10((i - from) as nat));
            lemma_pow10_18((i - from + 1) as nat);
            assert forall|k: int| 0 <= k < t.take(i - from + 1).len() implies ascii_digit(
                #[trigger] t.take(i - from + 1)[k],
            ) by {
                if k < i - from {
                    assert(t.take(i - from + 1)[k] == t.take(i - from)[k]);
                }
            }
        }
        v = v * 10 + ((c as u32) - ('0' as u32)) as u64;
        i += 1;
    }
    proof {
        assert(t.take(to - from) =~= t);
    }
    Some(v)
}

pub proof fn lemma_pow10_18(n: nat)
    requires
        n <= 18,
    ensures
        pow10(n) <= 1_000_000_000_000_000_000,
        pow10(n) >= 1,
{
    lemma_pow10_mono(n, 18);
    lemma_pow10_pos(n);
    reveal_with_fuel(pow10, 19);
}

pub proof fn lemma_pow10_mono(a: nat, b: nat)
    requires
        a <= b,
    ensures
        pow10(a) <= pow10(b),
    decreases b,
{
    if a < b {
        lemma_pow10_mono(a, (b - 1) as nat);
        lemma_pow10_pos((b - 1) as nat);
    }
}

pub proof fn lemma_pow10_pos(n: nat)
    ensures
        pow10(n) >= 1,
    decreases n,
{
    if n > 0 {
        lemma_pow10_pos((n - 1) as nat);
    }
}

/// `str::parse::<i64>` on `s[from..to]` for at most four characters (no
/// overflow is possible there).
pub fn parse_small_signed(s: &[char], from: usize, to: usize) -> (r: Option<i64>)
    requires
        from <= to <= s.len(),
        to - from <= 4,
    ensures
        match r {
            Some(v) => parse_signed(s@.subrange(from as int, to as int), i64::MIN as int, i64::MAX as int) == Some(v as int),
            None => parse_signed(s@.subrange(from as int, to as int), i64::MIN as int, i64::MAX as int) is None,
        },
        r is Some ==> -10000 < r->0 < 10000,
        r is Some && to - from <= 2 ==> -100 < r->0 < 100,
{
    let ghost t = s@.subrange(from as int, to as int);
    if from == to {
        return None;
    }
    let c = s[from];
    let signed = c == '+' || c == '-';
    let start = if signed { from + 1 } else { from };
    proof {
        if signed {
            assert(t.drop_first() =~= s@.subrange(start as int, to as int));
        } else {
            assert(t =~= s@.subrange(start as int, to as int));
        }
    }
    if start == to {
        return None;
    }
    match digits_value(s, start, to) {
        None => None,
        Some(v) => {
            proof {
                lemma_pow10_mono((to - start) as nat, 4);
                if to - from <= 2 {
                    lemma_pow10_mono((to - start) as nat, 2);
                }
                reveal_with_fuel(pow10, 5);
            }
            if c == '-' {
                Some(-(v as i64))
            } else {
                Some(v as i64)
            }
        },
    }
}

} // verus!

verus! {

/// The digits `format!("{}")` writes for a natural number.
pub open spec fn digits_of(n: nat) -> Seq<char>
    decreases n,
{
    if n < 10 {
        seq![((n + 48) as u32) as char]
    } else {
        digits_of(n / 10).push((((n % 10) + 48) as u32) as char)
    }
}

/// The text `format!("{}")` writes for an integer.
pub open spec fn decimal(v: int) -> Seq<char> {
    if v < 0 {
        seq!['-'] + digits_of((-v) as nat)
    } else {
        digits_of(v as nat)
    }
}

pub proof fn lemma_digits_of(n: nat)
    ensures
        all_digits(digits_of(n)),
        dec_value(digits_of(n)) == n,
        digits_of(n).len() >= 1,
    decreases n,
{
    if n >= 10 {
        lemma_digits_of(n / 10);
        let p = digits_of(n / 10);
        let d = (((n % 10) + 48) as u32) as char;
        assert(p.push(d).drop_last() =~= p);
        assert(p.push(d).last() == d);
        assert(d as u32 == (n % 10) + 48);
        assert(digit_value(d) == n % 10);
        assert(digits_of(n) == p.push(d));
        assert(dec_value(p.push(d)) == dec_value(p) * 10 + digit_value(d));
        assert((n / 10) * 10 + n % 10 == n);
        assert forall|i: int| 0 <= i < p.push(d).len() implies ascii_digit(#[trigger] p.push(d)[i]) by {
            if i < p.len() {
                assert(p.push(d)[i] == p[i]);
            }
        }
    } else {
        let d = ((n + 48) as u32) as char;
        assert(digits_of(n) == seq![d]);
        assert(seq![d].drop_last() =~= Seq::<char>::empty());
        assert(d as u32 == n + 48);
        assert(seq![d].last() == d);
        assert(digit_value(d) == n);
        assert(dec_value(seq![d]) == dec_value(seq![d].drop_last()) * 10 + digit_value(seq![d].last()));
        assert(all_digits(seq![d]));
    }
}

/// Appends the decimal digits of `n`.
pub fn push_digits(n: u64, out: &mut Vec<char>)
    ensures
        final(out)@ == old(out)@ + digits_of(n as nat),
    decreases n,
{
    if n >= 10 {
        push_digits(n / 10, out);
    }
    let d = (n % 10) as u32 + 48;
    let c = crate::text::char_of_ascii(d);
    out.push(c);
    proof {
        if n >= 10 {
            assert(final(out)@ =~= old(out)@ + digits_of(n as nat));
        } else {
            assert(final(out)@ =~= old(out)@ + digits_of(n as nat));
        }
    }
}

/// `format!("{}")` of an `i64`, as characters.
pub fn decimal_i64(v: i64) -> (r: Vec<char>)
    ensures
        r@ == decimal(v as int),
{
    let mut out: Vec<char> = Vec::new();
    if v < 0 {
        out.push('-');
        let m: u64 = (-(v as i128)) as u64;
        push_digits(m, &mut out);
        proof {
            assert(out@ =~= decimal(v as int));
        }
    } else {
        push_digits(v as u64, &mut out);
        proof {
            assert(out@ =~= decimal(v as int));
        }
    }
    out
}

pub proof fn lemma_dec_value_prefix(s: Seq<char>, k: int)
    requires
        all_digits(s),
        0 <= k <= s.len(),
    ensures
        dec_value(s.take(k)) <= dec_value(s),
    decreases s.len() - k,
{
    if k < s.len() {
        lemma_dec_value_prefix(s, k + 1);
        assert(s.take(k + 1).drop_last() =~= s.take(k));
        assert(ascii_digit(s[k]));
        assert(all_digits(s.take(k))) by {
            assert forall|i: int| 0 <= i < s.take(k).len() implies ascii_digit(#[trigger] s.take(k)[i]) by {
                assert(s.take(k)[i] == s[i]);
            }
        }
        lemma_dec_value_bound(s.take(k));
        assert(s.take(k + 1).last() == s[k]);
    } else {
        assert(s.take(k) =~= s);
    }
}

/// `str::parse::<i64>` on characters.
#[verifier::spinoff_prover]
#[verifier::rlimit(40)]
pub fn parse_i64(s: &[char]) -> (r: Option<i64>)
    ensures
        match r {
            Some(v) => parse_signed(s@, i64::MIN as int, i64::MAX as int) == Some(v as int),
            None => parse_signed(s@, i64::MIN as int, i64::MAX as int) is None,
        },
{
    if s.len() == 0 {
        return None;
    }
    let neg = s[0] == '-';
    let start: usize = if s[0] == '+' || s[0] == '-' { 1 } else { 0 };
    let ghost body = if s@[0] == '+' || s@[0] == '-' { s@.drop_first() } else { s@ };
    proof {
        assert(body =~= s@.skip(start as int));
    }
    if start == s.len() {
        return None;
    }
    let mut v: u128 = 0;
    let mut i = start;
    while i < s.len()
        invariant
            start <= i <= s.len(),
            s@.len() > 0,
            body == (if s@[0] == '+' || s@[0] == '-' { s@.drop_first() } else { s@ }),
            body == s@.skip(start as int),
            all_digits(body.take(i - start)),
            v == dec_value(body.take(i - start)),
            v <= 9_223_372_036_854_775_808u128,
        decreases s.len() - i,
    {
        let c = s[i];
        proof {
            assert(body.take(i - start + 1).drop_last() =~= body.take(i - start));
            assert(body[i - start] == c);
        }
        if !('0' <= c && c <= '9') {
            proof {
                assert(!ascii_digit(body[i - start]));
            }
            return None;
        }
        proof {
            assert forall|k: int| 0 <= k < body.take(i - start + 1).len() implies ascii_digit(
                #[trigger] body.take(i - start + 1)[k],
            ) by {
                if k < i - start {
                    assert(body.take(i - start + 1)[k] == body.take(i - start)[k]);
                }
            }
        }
        let d = ((c as u32) - 48) as u128;
        proof {
            let pre = body.take(i - start);
            let next = body.take(i - start + 1);
            assert(next.last() == c);
            assert(dec_value(next) == dec_value(pre) * 10 + digit_value(c));
            assert(d == digit_value(c));
            assert(v * 10 + d <= 9_223_372_036_854_775_808u128 * 10 + 9) by (nonlinear_arith)
                requires
                    v <= 9_223_372_036_854_775_808u128,
                    d <= 9,
            ;
        }
        v = v * 10 + d;
        i += 1;
        if v > 9_223_372_036_854_775_808u128 {
            proof {
                if all_digits(body) {
                    lemma_dec_value_prefix(body, i - start);
                }
            }
            return None;
        }
    }
    proof {
        assert(body.take(i - start) =~= body);
    }
    if neg {
        Some((-(v as i128)) as i64)
    } else if v > 9_223_372_036_854_775_807 {
        None
    } else {
        Some(v as i64)
    }
}

/// `str::parse` for an unsigned integer type whose largest value is `max`.
pub fn parse_unsigned_chars(s: &[char], max: u64) -> (r: Option<u64>)
    ensures
        match r {
            Some(v) => parse_unsigned(s@, max as int) == Some(v as int),
            None => parse_unsigned(s@, max as int) is None,
        },
{
    if s.len() == 0 {
        return None;
    }
    let start: usize = if s[0] == '+' { 1 } else { 0 };
    let ghost body = if s@[0] == '+' { s@.drop_first() } else { s@ };
    proof {
        assert(body =~= s@.skip(start as int));
    }
    if start == s.len() {
        return None;
    }
    let mut v: u128 = 0;
    let mut i = start;
    while i < s.len()
        invariant
            start <= i <= s.len(),
            s@.len() > 0,
            body == (if s@[0] == '+' { s@.drop_first() } else { s@ }),
            body == s@.skip(start as int),
            all_digits(body.take(i - start)),
            v == dec_value(body.take(i - start)),
            v <= max,
        decreases s.len() - i,
    {
        let c = s[i];
        proof {
            assert(body.take(i - start + 1).drop_last() =~= body.take(i - start));
            assert(body[i - start] == c);
        }
        if !('0' <= c && c <= '9') {
            proof {
                assert(!ascii_digit(body[i - start]));
            }
            return None;
        }
        proof {
            assert forall|k: int| 0 <= k < body.take(i - start + 1).len() implies ascii_digit(
                #[trigger] body.take(i - start + 1)[k],
            ) by {
                if k < i - start {
                    assert(body.take(i - start + 1)[k] == body.take(i - start)[k]);
                }
            }
        }
        v = v * 10 + ((c as u32) - 48) as u128;
        i += 1;
        if v > max as u128 {
            proof {
                if all_digits(body) {
                    lemma_dec_value_prefix(body, i - start);
                }
            }
            return None;
        }
    }
    proof {
        assert(body.take(i - start) =~= body);
    }
    Some(v as u64)
}

} // verus!
