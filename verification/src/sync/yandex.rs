//! Yandex Disk: the parts of the client that compute rather than talk to the
//! network — form encoding, the answers to the device-code flow, and the
//! dates in directory listings.

use vstd::prelude::*;
use vstd::string::StringSliceAdditionalSpecFns;
use crate::numbers::{all_digits, dec_value, digits_value, parse_signed, parse_small_signed, pow10};
use crate::text::{
    append, ascii_digit, char_of_ascii, chars_of, contains, eq_chars, has, lead, lemma_lead_char,
    push_char, string_of, trim, trim_chars,
};

verus! {

/// How long Yandex tokens live when a reply does not say, in seconds.
pub const TOKEN_LIFETIME_SECS: i64 = 31_536_000;

/// How long a device code lives when a reply does not say, in seconds.
pub const CODE_LIFETIME_SECS: i64 = 300;

/// Where the code is typed when a reply does not say.
pub const DEVICE_URL: &'static str = "https://oauth.yandex.ru/device";


// --- url encoding -----------------------------------------------------------------

/// Bytes that stay as they are in a url: letters, digits and `-_.~`.
pub open spec fn unreserved(b: u8) -> bool {
    (65u8 <= b <= 90u8) || (97u8 <= b <= 122u8) || (48u8 <= b <= 57u8) || b == 45u8 || b == 95u8
        || b == 46u8 || b == 126u8
}

/// Upper-case hex digit of a value below sixteen.
pub open spec fn hex_digit(v: int) -> char {
    if v < 10 {
        ((v + 48) as u32) as char
    } else {
        ((v + 55) as u32) as char
    }
}

/// What one byte becomes: itself, or `%XX`.
pub open spec fn escape_byte(b: u8) -> Seq<char> {
    if unreserved(b) {
        seq![(b as u32) as char]
    } else {
        seq!['%', hex_digit(b as int / 16), hex_digit(b as int % 16)]
    }
}

/// Percent-encoding of a byte string.
pub open spec fn url_escape(bytes: Seq<u8>) -> Seq<char>
    decreases bytes.len(),
{
    if bytes.len() == 0 {
        Seq::empty()
    } else {
        url_escape(bytes.drop_last()) + escape_byte(bytes.last())
    }
}

fn hex_char(v: u8) -> (c: char)
    requires
        v < 16,
    ensures
        c == hex_digit(v as int),
{
    if v < 10 {
        char_of_ascii((v + 48) as u32)
    } else {
        char_of_ascii((v + 55) as u32)
    }
}

/// Percent-encoding of a string's UTF-8 bytes.
pub fn urlencode(s: &str) -> (r: String)
    ensures
        r@ == url_escape(s.spec_bytes()),
{
    let bytes = s.as_bytes();
    let mut out = String::new();
    let mut i: usize = 0;
    while i < bytes.len()
        invariant
            i <= bytes@.len(),
            bytes@ == s.spec_bytes(),
            out@ == url_escape(bytes@.take(i as int)),
        decreases bytes.len() - i,
    {
        let b = bytes[i];
        proof {
            assert(bytes@.take(i + 1).drop_last() =~= bytes@.take(i as int));
        }
        let keep = (65u8 <= b && b <= 90u8) || (97u8 <= b && b <= 122u8) || (48u8 <= b && b
            <= 57u8) || b == 45u8 || b == 95u8 || b == 46u8 || b == 126u8;
        if keep {
            push_char(&mut out, char_of_ascii(b as u32));
        } else {
            push_char(&mut out, '%');
            push_char(&mut out, hex_char(b / 16));
            push_char(&mut out, hex_char(b % 16));
        }
        proof {
            assert(out@ =~= url_escape(bytes@.take(i + 1)));
        }
        i += 1;
    }
    proof {
        assert(bytes@.take(bytes@.len() as int) =~= bytes@);
    }
    out
}

/// `k=v` pairs, each side percent-encoded, joined with `&`.
pub open spec fn form_body(fields: Seq<(Seq<u8>, Seq<u8>)>) -> Seq<char>
    decreases fields.len(),
{
    if fields.len() == 0 {
        Seq::empty()
    } else {
        let pair = url_escape(fields.last().0) + seq!['='] + url_escape(fields.last().1);
        if fields.len() == 1 {
            pair
        } else {
            form_body(fields.drop_last()) + seq!['&'] + pair
        }
    }
}

/// The form body of a request: `k=v&k=v`.
pub fn form(fields: &[(&str, &str)]) -> (r: String)
    ensures
        r@ == form_body(fields@.map_values(|f: (&str, &str)| (f.0.spec_bytes(), f.1.spec_bytes()))),
{
    let ghost fs = fields@.map_values(|f: (&str, &str)| (f.0.spec_bytes(), f.1.spec_bytes()));
    let mut out: Vec<char> = Vec::new();
    let mut i: usize = 0;
    while i < fields.len()
        invariant
            i <= fields@.len(),
            fs == fields@.map_values(|f: (&str, &str)| (f.0.spec_bytes(), f.1.spec_bytes())),
            out@ == form_body(fs.take(i as int)),
        decreases fields.len() - i,
    {
        proof {
            assert(fs.take(i + 1).drop_last() =~= fs.take(i as int));
        }
        if i > 0 {
            out.push('&');
        }
        let (k, v) = fields[i];
        let ke = chars_of(urlencode(k).as_str());
        let ve = chars_of(urlencode(v).as_str());
        append(&mut out, &ke);
        out.push('=');
        append(&mut out, &ve);
        proof {
            assert(out@ =~= form_body(fs.take(i + 1)));
        }
        i += 1;
    }
    proof {
        assert(fs.take(fields@.len() as int) =~= fs);
    }
    string_of(&out)
}

// --- device-code answers ---------------------------------------------------------

/// What the token endpoint's error code means while the person is still
/// typing the code.
#[derive(PartialEq, Eq, Structural, Debug, Clone, Copy)]
pub enum PollError {
    /// Not entered yet, or asked too often: ask again later.
    Pending,
    /// The code ran out.
    Expired,
    /// The person refused access.
    Denied,
    /// Anything else: describe the reply.
    Other,
}

/// Meaning of the `error` field of a failed token poll.
pub open spec fn poll_error_kind(error: Seq<char>) -> PollError {
    if error == "authorization_pending"@ || error == "slow_down"@ {
        PollError::Pending
    } else if error == "expired_token"@ {
        PollError::Expired
    } else if error == "access_denied"@ {
        PollError::Denied
    } else {
        PollError::Other
    }
}

/// Meaning of the `error` field of a failed token poll.
pub fn classify_poll_error(error: &str) -> (r: PollError)
    ensures
        r == poll_error_kind(error@),
{
    let e = chars_of(error);
    let pending = chars_of("authorization_pending");
    let slow = chars_of("slow_down");
    let expired = chars_of("expired_token");
    let denied = chars_of("access_denied");
    if eq_chars(&e, &pending) || eq_chars(&e, &slow) {
        PollError::Pending
    } else if eq_chars(&e, &expired) {
        PollError::Expired
    } else if eq_chars(&e, &denied) {
        PollError::Denied
    } else {
        PollError::Other
    }
}

/// A reply status counts as success in `200..300`.
pub fn status_ok(status: u16) -> (r: bool)
    ensures
        r == (200 <= status < 300),
{
    200 <= status && status < 300
}

/// Creating a folder that is already there (409) is no error.
pub fn mkdir_ok(status: u16) -> (r: bool)
    ensures
        r == ((200 <= status < 300) || status == 409),
{
    status_ok(status) || status == 409
}

/// Deleting what is already gone (404) is no error.
pub fn delete_ok(status: u16) -> (r: bool)
    ensures
        r == ((200 <= status < 300) || status == 404),
{
    status_ok(status) || status == 404
}

/// The application's keys in Yandex OAuth, as read from the build.
pub struct Credentials {
    pub client_id: String,
    pub client_secret: String,
}

/// Keys are present: without them signing in is impossible.
pub fn configured(c: &Credentials) -> (r: bool)
    ensures
        r == (c.client_id@.len() > 0 && c.client_secret@.len() > 0),
{
    let id = chars_of(c.client_id.as_str());
    let secret = chars_of(c.client_secret.as_str());
    id.len() > 0 && secret.len() > 0
}

/// The `Authorization` header value for a Disk request.
pub fn auth(token: &str) -> (r: String)
    ensures
        r@ == "OAuth "@ + token@,
{
    let mut v = chars_of("OAuth ");
    append(&mut v, &chars_of(token));
    string_of(&v)
}

/// Whether an error text is the cloud's "sign in again": both clients write
/// the status code into the message.
pub fn is_unauthorized(message: &str) -> (r: bool)
    ensures
        r == has(message@, "(401)"@),
{
    let m = chars_of(message);
    let pat = chars_of("(401)");
    contains(&m, &pat)
}

// --- dates --------------------------------------------------------------------------

/// Rust's `/` on integers: truncates towards zero (for a positive divisor).
pub open spec fn tdiv(a: int, b: int) -> int {
    if a >= 0 {
        a / b
    } else {
        -((-a) / b)
    }
}

/// Rust's `%` on integers: the remainder of `tdiv`.
pub open spec fn trem(a: int, b: int) -> int {
    a - b * tdiv(a, b)
}

/// Days from 1970-01-01 to a proleptic Gregorian date, by Howard Hinnant's
/// formula with Rust's integer division.
pub open spec fn civil_days(y0: int, m: int, d: int) -> int {
    let y = if m <= 2 { y0 - 1 } else { y0 };
    let era = tdiv(if y >= 0 { y } else { y - 399 }, 400);
    let yoe = y - era * 400;
    let mp = trem(m + 9, 12);
    let doy = tdiv(153 * mp + 2, 5) + d - 1;
    let doe = yoe * 365 + tdiv(yoe, 4) - tdiv(yoe, 100) + doy;
    era * 146097 + doe - 719468
}

/// Days from the epoch to a calendar date (Howard Hinnant's algorithm).
pub fn days_from_civil(y: i64, m: i64, d: i64) -> (r: i64)
    requires
        -100_000 <= y <= 100_000,
        -1000 <= m <= 1000,
        -1000 <= d <= 1000,
    ensures
        r == civil_days(y as int, m as int, d as int),
{
    let y = if m <= 2 { y - 1 } else { y };
    let era = if y >= 0 { y } else { y - 399 } / 400;
    let yoe = y - era * 400;
    let mp = (m + 9) % 12;
    let doy = (153 * mp + 2) / 5 + d - 1;
    let doe = yoe * 365 + yoe / 4 - yoe / 100 + doy;
    era * 146_097 + doe - 719_468
}

/// The first `n` ASCII digits of `s`, in order.
pub open spec fn keep_digits(s: Seq<char>) -> Seq<char>
    decreases s.len(),
{
    if s.len() == 0 {
        s
    } else if ascii_digit(s.last()) {
        keep_digits(s.drop_last()).push(s.last())
    } else {
        keep_digits(s.drop_last())
    }
}

pub proof fn lemma_keep_digits(s: Seq<char>)
    ensures
        all_digits(keep_digits(s)),
        keep_digits(s).len() <= s.len(),
    decreases s.len(),
{
    if s.len() > 0 {
        lemma_keep_digits(s.drop_last());
        let k = keep_digits(s.drop_last());
        if ascii_digit(s.last()) {
            assert forall|i: int| 0 <= i < k.push(s.last()).len() implies ascii_digit(
                #[trigger] k.push(s.last())[i],
            ) by {
                if i < k.len() {
                    assert(k.push(s.last())[i] == k[i]);
                }
            }
        }
    }
}

/// Digits as a predicate.
pub open spec fn digit_pred() -> spec_fn(char) -> bool {
    |c: char| ascii_digit(c)
}

/// Where the text after the seconds continues once a fraction `.ddd` is
/// passed over.
pub open spec fn after_fraction(rest: Seq<char>) -> Seq<char> {
    if rest.len() > 0 && rest[0] == '.' {
        rest.skip(1 + lead(rest.skip(1), digit_pred()) as int)
    } else {
        rest
    }
}

/// Zone offset in seconds from what follows the time: `Z` or nothing is UTC,
/// `+hh[:mm]` and `-hh[:mm]` are read from the digits that follow, anything
/// else counts as UTC; fewer than two digits after a sign is no date.
pub open spec fn zone_offset(rest: Seq<char>) -> Option<int> {
    if rest.len() == 0 || rest[0] == 'Z' {
        Some(0)
    } else if rest[0] == '+' || rest[0] == '-' {
        let digits = keep_digits(rest.skip(1));
        if digits.len() < 2 {
            None
        } else {
            let oh = dec_value(digits.take(2));
            let om = if digits.len() >= 4 { dec_value(digits.subrange(2, 4)) } else { 0 };
            let total = oh * 3600 + om * 60;
            Some(if rest[0] == '+' { total } else { -total })
        }
    } else {
        Some(0)
    }
}

proof fn lemma_offset_digits(a: char, b: char, c: char, d: char)
    requires
        ascii_digit(a) && ascii_digit(b) && ascii_digit(c) && ascii_digit(d),
    ensures
        keep_digits(seq![a, b, ':', c, d]) == seq![a, b, c, d],
{
    let s = seq![a, b, ':', c, d];
    assert(s.drop_last() =~= seq![a, b, ':', c]);
    assert(seq![a, b, ':', c].drop_last() =~= seq![a, b, ':']);
    assert(seq![a, b, ':'].drop_last() =~= seq![a, b]);
    assert(seq![a, b].drop_last() =~= seq![a]);
    assert(seq![a].drop_last() =~= Seq::<char>::empty());
    assert(keep_digits(Seq::<char>::empty()) == Seq::<char>::empty());
    assert(seq![a].last() == a);
    assert(seq![a, b].last() == b);
    assert(seq![a, b, ':'].last() == ':');
    assert(seq![a, b, ':', c].last() == c);
    assert(s.last() == d);
    assert(!ascii_digit(':'));
    assert(Seq::<char>::empty().push(a) =~= seq![a]);
    assert(keep_digits(seq![a]) =~= seq![a]);
    assert(keep_digits(seq![a, b]) =~= seq![a, b]);
    assert(keep_digits(seq![a, b, ':']) =~= seq![a, b]);
    assert(keep_digits(seq![a, b, ':', c]) =~= seq![a, b, c]);
    assert(keep_digits(s) =~= seq![a, b, c, d]);
}

proof fn lemma_two_digit_value(a: char, b: char)
    ensures
        dec_value(seq![a, b]) == crate::numbers::digit_value(a) * 10 + crate::numbers::digit_value(b),
{
    assert(seq![a, b].drop_last() =~= seq![a]);
    assert(seq![a].drop_last() =~= Seq::<char>::empty());
    assert(seq![a, b].last() == b);
    assert(seq![a].last() == a);
    assert(dec_value(seq![a]) == dec_value(Seq::<char>::empty()) * 10 + crate::numbers::digit_value(a));
    assert(dec_value(seq![a, b]) == dec_value(seq![a]) * 10 + crate::numbers::digit_value(b));
}

/// A zone offset shifts a moment by exactly its hours and minutes: the
/// same date and time read with `Z` and with `+hh:mm` (or `-hh:mm`) are
/// `hh * 3600 + mm * 60` seconds apart, the `+` one earlier. So
/// "…T12:34:56Z" and "…T18:04:56+05:30" give the same moment.
pub proof fn law_offset_shifts_by_hours_and_minutes(p: Seq<char>, sign: char, a: char, b: char, c: char, d: char)
    requires
        p.len() == 19,
        sign == '+' || sign == '-',
        ascii_digit(a) && ascii_digit(b) && ascii_digit(c) && ascii_digit(d),
        trim(p + seq!['Z']) == p + seq!['Z'],
        trim(p + seq![sign, a, b, ':', c, d]) == p + seq![sign, a, b, ':', c, d],
    ensures
        ({
            let utc = iso8601_ms(p + seq!['Z']);
            let zoned = iso8601_ms(p + seq![sign, a, b, ':', c, d]);
            let shift = ((crate::numbers::digit_value(a) * 10 + crate::numbers::digit_value(b)) * 3600 + (crate::numbers::digit_value(c) * 10 + crate::numbers::digit_value(d)) * 60)
                * 1000;
            &&& utc is Some <==> zoned is Some
            &&& utc is Some ==> if sign == '+' {
                zoned->0 == utc->0 - shift
            } else {
                zoned->0 == utc->0 + shift
            }
        }),
{
    let t1 = p + seq!['Z'];
    let t2 = p + seq![sign, a, b, ':', c, d];
    assert forall|i: int| 0 <= i < 19 implies t1[i] == p[i] && t2[i] == p[i] by {}
    assert forall|x: int, y: int| 0 <= x <= y <= 19 implies t1.subrange(x, y) =~= p.subrange(x, y) && t2.subrange(
        x,
        y,
    ) =~= p.subrange(x, y) by {}
    assert(t1.skip(19) =~= seq!['Z']);
    assert(t2.skip(19) =~= seq![sign, a, b, ':', c, d]);
    assert(after_fraction(seq!['Z']) == seq!['Z']);
    assert(after_fraction(seq![sign, a, b, ':', c, d]) == seq![sign, a, b, ':', c, d]);
    assert(zone_offset(seq!['Z']) == Some(0int));
    let rest = seq![sign, a, b, ':', c, d];
    assert(rest.skip(1) =~= seq![a, b, ':', c, d]);
    lemma_offset_digits(a, b, c, d);
    let digits = seq![a, b, c, d];
    assert(digits.take(2) =~= seq![a, b]);
    assert(digits.subrange(2, 4) =~= seq![c, d]);
    lemma_two_digit_value(a, b);
    lemma_two_digit_value(c, d);
    assert(field(t1, 0, 4) == field(t2, 0, 4));
    assert(field(t1, 5, 7) == field(t2, 5, 7));
    assert(field(t1, 8, 10) == field(t2, 8, 10));
    assert(field(t1, 11, 13) == field(t2, 11, 13));
    assert(field(t1, 14, 16) == field(t2, 14, 16));
    assert(field(t1, 17, 19) == field(t2, 17, 19));
}

/// A signed number in `t[a..b]`, as `str::parse::<i64>` reads it.
pub open spec fn field(t: Seq<char>, a: int, b: int) -> Option<int> {
    parse_signed(t.subrange(a, b), i64::MIN as int, i64::MAX as int)
}

/// "2024-05-01T12:34:56+00:00" as milliseconds since the epoch. The text is
/// trimmed; its first nineteen characters must be ASCII (in bytes, the
/// fields the parser slices must be whole characters) and hold the six
/// numeric fields at fixed places; a fraction of a second is ignored; the
/// zone offset is subtracted.
pub open spec fn iso8601_ms(s: Seq<char>) -> Option<int> {
    let t = trim(s);
    if t.len() < 19 || !(forall|i: int| 0 <= i < 19 ==> (#[trigger] t[i] as u32) < 128) {
        None
    } else if field(t, 0, 4) is None || field(t, 5, 7) is None || field(t, 8, 10) is None
        || field(t, 11, 13) is None || field(t, 14, 16) is None || field(t, 17, 19) is None {
        None
    } else {
        let y = field(t, 0, 4)->0;
        let mo = field(t, 5, 7)->0;
        let d = field(t, 8, 10)->0;
        let h = field(t, 11, 13)->0;
        let mi = field(t, 14, 16)->0;
        let sec = field(t, 17, 19)->0;
        match zone_offset(after_fraction(t.skip(19))) {
            None => None,
            Some(off) => Some(
                ((civil_days(y, mo, d) * 86400 + h * 3600 + mi * 60 + sec) - off) * 1000,
            ),
        }
    }
}

/// The digits of `s`, in order.
fn digits_in(s: &[char], from: usize) -> (r: Vec<char>)
    requires
        from <= s.len(),
    ensures
        r@ == keep_digits(s@.skip(from as int)),
{
    let mut r: Vec<char> = Vec::new();
    let mut i = from;
    while i < s.len()
        invariant
            from <= i <= s.len(),
            r@ == keep_digits(s@.subrange(from as int, i as int)),
        decreases s.len() - i,
    {
        proof {
            assert(s@.subrange(from as int, i + 1).drop_last() =~= s@.subrange(from as int, i as int));
        }
        if '0' <= s[i] && s[i] <= '9' {
            r.push(s[i]);
        }
        i += 1;
    }
    proof {
        assert(s@.subrange(from as int, s@.len() as int) =~= s@.skip(from as int));
    }
    r
}

/// "2024-05-01T12:34:56+00:00" → milliseconds since the epoch; see
/// [`iso8601_ms`] for what is accepted.
pub fn parse_iso8601(s: &str) -> (r: Option<i64>)
    ensures
        match r {
            Some(v) => iso8601_ms(s@) == Some(v as int),
            None => iso8601_ms(s@) is None,
        },
{
    let all = chars_of(s);
    let t = trim_chars(&all);
    if t.len() < 19 {
        return None;
    }
    let mut k: usize = 0;
    while k < 19
        invariant
            k <= 19 <= t@.len(),
            t@ == trim(s@),
            forall|i: int| 0 <= i < k ==> (#[trigger] t@[i] as u32) < 128,
        decreases 19 - k,
    {
        if (t[k] as u32) >= 128 {
            proof {
                assert(t@ == trim(s@));
                assert(!((t@[k as int] as u32) < 128));
            }
            return None;
        }
        k += 1;
    }
    let y = match parse_small_signed(&t, 0, 4) { Some(v) => v, None => return None };
    let mo = match parse_small_signed(&t, 5, 7) { Some(v) => v, None => return None };
    let d = match parse_small_signed(&t, 8, 10) { Some(v) => v, None => return None };
    let h = match parse_small_signed(&t, 11, 13) { Some(v) => v, None => return None };
    let mi = match parse_small_signed(&t, 14, 16) { Some(v) => v, None => return None };
    let sec = match parse_small_signed(&t, 17, 19) { Some(v) => v, None => return None };
    proof {
        assert(-100 < mo < 100 && -100 < d < 100 && -100 < h < 100);
    }
    // Fraction of a second and zone offset: what is left after the seconds.
    let at = fraction_end(&t);
    let offset = match zone_offset_at(&t, at) {
        Some(o) => o,
        None => return None,
    };
    let days = days_from_civil(y, mo, d);
    proof {
        assert(-10000 < y < 10000);
    }
    let v = ((days * 86_400 + h * 3600 + mi * 60 + sec) - offset) * 1000;
    Some(v)
}

/// Where the text continues after the seconds and their fraction.
fn fraction_end(t: &[char]) -> (at: usize)
    requires
        t.len() >= 19,
    ensures
        19 <= at <= t.len(),
        t@.skip(at as int) == after_fraction(t@.skip(19)),
{
    if t.len() > 19 && t[19] == '.' {
        let n = lead_digits(t, 20);
        proof {
            assert(t@.skip(19).skip(1) =~= t@.subrange(20, t@.len() as int));
            assert(t@.skip(19).skip(1 + n as int) =~= t@.skip(20 + n as int));
        }
        20 + n
    } else {
        proof {
            assert(t@.skip(19) =~= t@.skip(19));
        }
        19
    }
}

/// The zone offset written at `at`, in seconds.
fn zone_offset_at(t: &[char], at: usize) -> (r: Option<i64>)
    requires
        at <= t.len(),
    ensures
        match r {
            Some(o) => zone_offset(t@.skip(at as int)) == Some(o as int),
            None => zone_offset(t@.skip(at as int)) is None,
        },
        r is Some ==> -400_000 < r->0 < 400_000,
{
    let ghost rest = t@.skip(at as int);
    if at == t.len() || t[at] == 'Z' {
        return Some(0);
    }
    if !(t[at] == '+' || t[at] == '-') {
        return Some(0);
    }
    let digits = digits_in(t, at + 1);
    proof {
        assert(t@.skip(at + 1) =~= rest.skip(1));
    }
    if digits.len() < 2 {
        return None;
    }
    proof {
        lemma_keep_digits(t@.skip(at + 1));
        assert(all_digits(digits@.subrange(0, 2))) by {
            assert forall|i: int| 0 <= i < 2 implies ascii_digit(#[trigger] digits@.subrange(0, 2)[i]) by {
                assert(digits@.subrange(0, 2)[i] == digits@[i]);
            }
        }
        if digits.len() >= 4 {
            assert(all_digits(digits@.subrange(2, 4))) by {
                assert forall|i: int| 0 <= i < 2 implies ascii_digit(#[trigger] digits@.subrange(2, 4)[i]) by {
                    assert(digits@.subrange(2, 4)[i] == digits@[i + 2]);
                }
            }
        }
    }
    let oh = match digits_value(&digits, 0, 2) { Some(v) => v, None => return None };
    let om = if digits.len() >= 4 {
        match digits_value(&digits, 2, 4) { Some(v) => v, None => return None }
    } else {
        0
    };
    proof {
        assert(digits@.subrange(0, 2) =~= digits@.take(2));
        reveal_with_fuel(pow10, 3);
    }
    let total = (oh as i64) * 3600 + (om as i64) * 60;
    if t[at] == '+' { Some(total) } else { Some(-total) }
}

/// How many ASCII digits follow at `from`.
fn lead_digits(s: &[char], from: usize) -> (k: usize)
    requires
        from <= s.len(),
    ensures
        k == lead(s@.subrange(from as int, s@.len() as int), digit_pred()),
        from + k <= s.len(),
{
    let mut k: usize = 0;
    while from + k < s.len() && '0' <= s[from + k] && s[from + k] <= '9'
        invariant
            from + k <= s.len(),
            forall|i: int|
                0 <= i < k ==> #[trigger] digit_pred()(s@.subrange(from as int, s@.len() as int)[i]),
        decreases s.len() - from - k,
    {
        k += 1;
    }
    proof {
        lemma_lead_char(s@.subrange(from as int, s@.len() as int), digit_pred(), k as int);
    }
    k
}

/// The current time in milliseconds since the Unix epoch (the machine's
/// clock, read through `provider::now_ms`); never negative.
pub fn now_ms() -> (r: i64)
    ensures
        r >= 0,
{
    crate::sync::provider::now_ms()
}

} // verus!
