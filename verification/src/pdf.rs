//! The parts of a PDF export that are not layout: the two faces, the
//! escaping of text strings and the ToUnicode map of an embedded font,
//! without which text copied out of the file comes out as rubbish.

pub mod file;
pub mod objects;

use vstd::prelude::*;
use crate::numbers::{digits_of, push_digits};
use crate::text::{append, char_of_ascii, chars_of, string_of};
use crate::ttf::{glyph_in, Font};

verus! {

/// The face of a line: regular or medium (Inter's bold is not used).
#[derive(Clone, Copy, Debug, PartialEq, Eq, Structural)]
pub enum Face {
    Regular,
    Medium,
}

// --- text strings ---------------------------------------------------------------------------

/// A character of a PDF text string: backslash and brackets get a backslash.
pub open spec fn escaped_char(c: char) -> Seq<char> {
    if c == '\\' || c == '(' || c == ')' {
        seq!['\\', c]
    } else {
        seq![c]
    }
}

/// A PDF text string.
pub open spec fn escape_spec(s: Seq<char>) -> Seq<char>
    decreases s.len(),
{
    if s.len() == 0 {
        Seq::empty()
    } else {
        escape_spec(s.drop_last()) + escaped_char(s.last())
    }
}

/// Escapes text for a PDF text string (the document's title and the like).
pub fn escape(text: &str) -> (r: String)
    ensures
        r@ == escape_spec(text@),
{
    let s = chars_of(text);
    let mut out: Vec<char> = Vec::new();
    let mut i: usize = 0;
    while i < s.len()
        invariant
            i <= s.len(),
            s@ == text@,
            out@ == escape_spec(s@.take(i as int)),
        decreases s.len() - i,
    {
        let c = s[i];
        if c == '\\' || c == '(' || c == ')' {
            out.push('\\');
        }
        out.push(c);
        proof {
            assert(s@.take(i + 1).drop_last() =~= s@.take(i as int));
        }
        i += 1;
    }
    proof {
        assert(s@.take(s.len() as int) =~= s@);
    }
    string_of(&out)
}

// --- the ToUnicode map ----------------------------------------------------------------------

/// The pairs of glyph and code point for the `n` code points from `from`
/// that the font has a glyph for, in code point order.
pub open spec fn pairs_in(cmap: Seq<(nat, nat, nat)>, from: nat, n: nat) -> Seq<(u16, u32)>
    decreases n,
{
    if n == 0 {
        Seq::empty()
    } else {
        let code = (from + n - 1) as nat;
        let g = glyph_in(cmap, code);
        pairs_in(cmap, from, (n - 1) as nat) + if g != 0 {
            seq![(g as u16, code as u32)]
        } else {
            Seq::empty()
        }
    }
}

/// The code points the map covers: Latin, Cyrillic, punctuation and
/// typographic quotes, currency signs — whatever a transcript may hold.
pub open spec fn unicode_pairs_spec(cmap: Seq<(nat, nat, nat)>) -> Seq<(u16, u32)> {
    pairs_in(cmap, 0x20, 95) + pairs_in(cmap, 0xA0, 96) + pairs_in(cmap, 0x400, 256) + pairs_in(cmap, 0x2010, 24)
        + pairs_in(cmap, 0x20AC, 20)
}

fn push_pairs(font: &Font, from: u32, n: u32, out: &mut Vec<(u16, u32)>)
    requires
        from + n < 0x10000,
    ensures
        final(out)@ == old(out)@ + pairs_in(font@.cmap, from as nat, n as nat),
{
    let mut k: u32 = 0;
    while k < n
        invariant
            k <= n,
            from + n < 0x10000,
            out@ == old(out)@ + pairs_in(font@.cmap, from as nat, k as nat),
        decreases n - k,
    {
        let code = from + k;
        let g = font.glyph_of_code(code);
        let ghost before = out@;
        if g != 0 {
            out.push((g, code));
        }
        proof {
            assert(glyph_in(font@.cmap, code as nat) < 65536) by {
                lemma_glyph_small(font@.cmap, code as nat);
            }
            assert(out@ =~= old(out)@ + pairs_in(font@.cmap, from as nat, (k + 1) as nat));
        }
        k += 1;
    }
}

proof fn lemma_glyph_small(c: Seq<(nat, nat, nat)>, code: nat)
    ensures
        glyph_in(c, code) < 65536,
    decreases c.len(),
{
    if c.len() > 0 && !(c[0].0 <= code <= c[0].1) {
        lemma_glyph_small(c.drop_first(), code);
    }
}

/// The glyphs of the font for the code points the map covers.
pub fn unicode_pairs(font: &Font) -> (r: Vec<(u16, u32)>)
    ensures
        r@ == unicode_pairs_spec(font@.cmap),
{
    let mut out: Vec<(u16, u32)> = Vec::new();
    push_pairs(font, 0x20, 95, &mut out);
    push_pairs(font, 0xA0, 96, &mut out);
    push_pairs(font, 0x400, 256, &mut out);
    push_pairs(font, 0x2010, 24, &mut out);
    push_pairs(font, 0x20AC, 20, &mut out);
    proof {
        assert(out@ =~= unicode_pairs_spec(font@.cmap));
    }
    out
}

/// An upper-case hexadecimal digit.
pub open spec fn hex_digit(d: nat) -> char {
    if d < 10 {
        ((d + 48) as u32) as char
    } else {
        ((d + 55) as u32) as char
    }
}

/// Four upper-case hexadecimal digits, as `{:04X}` writes a number below 65536.
pub open spec fn hex4(v: nat) -> Seq<char> {
    seq![hex_digit(v / 4096 % 16), hex_digit(v / 256 % 16), hex_digit(v / 16 % 16), hex_digit(v % 16)]
}

fn hex_char(d: u32) -> (c: char)
    requires
        d < 16,
    ensures
        c == hex_digit(d as nat),
{
    if d < 10 {
        char_of_ascii(d + 48)
    } else {
        char_of_ascii(d + 55)
    }
}

fn push_hex4(v: u32, out: &mut Vec<char>)
    requires
        v < 65536,
    ensures
        final(out)@ == old(out)@ + hex4(v as nat),
{
    out.push(hex_char(v / 4096 % 16));
    out.push(hex_char(v / 256 % 16));
    out.push(hex_char(v / 16 % 16));
    out.push(hex_char(v % 16));
    proof {
        assert(final(out)@ =~= old(out)@ + hex4(v as nat));
    }
}

/// The lines of one `bfchar` block: `<glyph> <code>`.
pub open spec fn bfchar_lines(p: Seq<(u16, u32)>) -> Seq<char>
    decreases p.len(),
{
    if p.len() == 0 {
        Seq::empty()
    } else {
        seq!['<'] + hex4(p[0].0 as nat) + seq!['>', ' ', '<'] + hex4(p[0].1 as nat) + seq!['>', '\n'] + bfchar_lines(
            p.drop_first(),
        )
    }
}

/// The pairs in blocks of at most 100, each with its count.
pub open spec fn bf_blocks(p: Seq<(u16, u32)>) -> Seq<char>
    decreases p.len(),
{
    if p.len() == 0 {
        Seq::empty()
    } else {
        let n = if p.len() < 100 {
            p.len()
        } else {
            100
        };
        digits_of(n) + " beginbfchar\n"@ + bfchar_lines(p.take(n as int)) + "endbfchar\n"@ + bf_blocks(
            p.skip(n as int),
        )
    }
}

/// What comes before the pairs.
pub open spec fn cmap_head() -> Seq<char> {
    "/CIDInit /ProcSet findresource begin\n12 dict begin\nbegincmap\n/CIDSystemInfo << /Registry (Adobe) /Ordering (UCS) /Supplement 0 >> def\n/CMapName /Adobe-Identity-UCS def\n/CMapType 2 def\n1 begincodespacerange\n<0000> <FFFF>\nendcodespacerange\n"@
}

/// What comes after the pairs.
pub open spec fn cmap_tail() -> Seq<char> {
    "endcmap\nCMapName currentdict /CMap defineresource pop\nend\nend\n"@
}

/// The text of a ToUnicode map for the pairs.
pub open spec fn to_unicode_spec(p: Seq<(u16, u32)>) -> Seq<char> {
    cmap_head() + bf_blocks(p) + cmap_tail()
}

fn push_lines(p: &[(u16, u32)], from: usize, to: usize, out: &mut Vec<char>)
    requires
        from <= to <= p.len(),
        forall|i: int| 0 <= i < p.len() ==> p@[i].1 < 65536,
    ensures
        final(out)@ == old(out)@ + bfchar_lines(p@.subrange(from as int, to as int)),
{
    let mut j = from;
    proof {
        assert(old(out)@ + Seq::<char>::empty() =~= old(out)@);
    }
    while j < to
        invariant
            from <= j <= to <= p.len(),
            forall|i: int| 0 <= i < p.len() ==> p@[i].1 < 65536,
            old(out)@ + bfchar_lines(p@.subrange(from as int, to as int)) == out@ + bfchar_lines(
                p@.subrange(j as int, to as int),
            ),
        decreases to - j,
    {
        let (g, c) = p[j];
        let ghost before = out@;
        out.push('<');
        push_hex4(g as u32, out);
        out.push('>');
        out.push(' ');
        out.push('<');
        push_hex4(c, out);
        out.push('>');
        out.push('\n');
        proof {
            let rest = p@.subrange(j as int, to as int);
            assert(rest.drop_first() =~= p@.subrange(j + 1, to as int));
            assert(rest[0] == (g, c));
            assert(out@ =~= before + (seq!['<'] + hex4(g as nat) + seq!['>', ' ', '<'] + hex4(c as nat) + seq!['>', '\n']));
        }
        j += 1;
    }
    proof {
        assert(p@.subrange(to as int, to as int) =~= Seq::<(u16, u32)>::empty());
        assert(out@ + Seq::<char>::empty() =~= out@);
    }
}

/// The text of the ToUnicode map for the pairs; each code point is below
/// 65536.
pub fn to_unicode_text(p: &[(u16, u32)]) -> (r: String)
    requires
        forall|i: int| 0 <= i < p.len() ==> p@[i].1 < 65536,
    ensures
        r@ == to_unicode_spec(p@),
{
    let mut out = chars_of(
        "/CIDInit /ProcSet findresource begin\n12 dict begin\nbegincmap\n/CIDSystemInfo << /Registry (Adobe) /Ordering (UCS) /Supplement 0 >> def\n/CMapName /Adobe-Identity-UCS def\n/CMapType 2 def\n1 begincodespacerange\n<0000> <FFFF>\nendcodespacerange\n",
    );
    let ghost head = out@;
    let begin = chars_of(" beginbfchar\n");
    let end = chars_of("endbfchar\n");
    let mut i: usize = 0;
    proof {
        assert(p@.skip(0) =~= p@);
    }
    while i < p.len()
        invariant
            i <= p.len(),
            forall|k: int| 0 <= k < p.len() ==> p@[k].1 < 65536,
            head == cmap_head(),
            begin@ == " beginbfchar\n"@,
            end@ == "endbfchar\n"@,
            head + bf_blocks(p@) == out@ + bf_blocks(p@.skip(i as int)),
        decreases p.len() - i,
    {
        let n: usize = if p.len() - i < 100 {
            p.len() - i
        } else {
            100
        };
        let ghost before = out@;
        push_digits(n as u64, &mut out);
        append(&mut out, &begin);
        push_lines(p, i, i + n, &mut out);
        append(&mut out, &end);
        proof {
            let rest = p@.skip(i as int);
            assert(rest.take(n as int) =~= p@.subrange(i as int, i + n));
            assert(rest.skip(n as int) =~= p@.skip(i + n));
            assert(out@ =~= before + (digits_of(n as nat) + " beginbfchar\n"@ + bfchar_lines(rest.take(n as int))
                + "endbfchar\n"@));
        }
        i += n;
    }
    let tail = chars_of("endcmap\nCMapName currentdict /CMap defineresource pop\nend\nend\n");
    append(&mut out, &tail);
    proof {
        assert(p@.skip(p.len() as int) =~= Seq::<(u16, u32)>::empty());
        assert(out@ =~= to_unicode_spec(p@));
    }
    string_of(&out)
}

/// The ToUnicode map of a font: the glyph of each covered code point that
/// the font has.
pub fn to_unicode_cmap(font: &Font) -> (r: String)
    ensures
        r@ == to_unicode_spec(unicode_pairs_spec(font@.cmap)),
{
    let pairs = unicode_pairs(font);
    proof {
        assert forall|i: int| 0 <= i < pairs.len() implies pairs@[i].1 < 65536 by {
            lemma_pairs_small(font@.cmap);
        }
    }
    to_unicode_text(&pairs)
}

proof fn lemma_pairs_in_small(c: Seq<(nat, nat, nat)>, from: nat, n: nat)
    requires
        from + n <= 65536,
    ensures
        forall|i: int| 0 <= i < pairs_in(c, from, n).len() ==> (#[trigger] pairs_in(c, from, n)[i]).1 < 65536,
    decreases n,
{
    if n > 0 {
        lemma_pairs_in_small(c, from, (n - 1) as nat);
        lemma_glyph_small(c, (from + n - 1) as nat);
        let a = pairs_in(c, from, (n - 1) as nat);
        let s = pairs_in(c, from, n);
        assert forall|i: int| 0 <= i < s.len() implies (#[trigger] s[i]).1 < 65536 by {
            if i < a.len() {
                assert(s[i] == a[i]);
            }
        }
    }
}

proof fn lemma_pairs_small(c: Seq<(nat, nat, nat)>)
    ensures
        forall|i: int| 0 <= i < unicode_pairs_spec(c).len() ==> (#[trigger] unicode_pairs_spec(c)[i]).1 < 65536,
{
    lemma_pairs_in_small(c, 0x20, 95);
    lemma_pairs_in_small(c, 0xA0, 96);
    lemma_pairs_in_small(c, 0x400, 256);
    lemma_pairs_in_small(c, 0x2010, 24);
    lemma_pairs_in_small(c, 0x20AC, 20);
    let a = pairs_in(c, 0x20, 95);
    let b = pairs_in(c, 0xA0, 96);
    let d = pairs_in(c, 0x400, 256);
    let e = pairs_in(c, 0x2010, 24);
    let f = pairs_in(c, 0x20AC, 20);
    assert forall|i: int| 0 <= i < unicode_pairs_spec(c).len() implies (#[trigger] unicode_pairs_spec(c)[i]).1 < 65536 by {
        let s = unicode_pairs_spec(c);
        if i < a.len() {
            assert(s[i] == a[i]);
        } else if i < a.len() + b.len() {
            assert(s[i] == b[i - a.len()]);
        } else if i < a.len() + b.len() + d.len() {
            assert(s[i] == d[i - a.len() - b.len()]);
        } else if i < a.len() + b.len() + d.len() + e.len() {
            assert(s[i] == e[i - a.len() - b.len() - d.len()]);
        } else {
            assert(s[i] == f[i - a.len() - b.len() - d.len() - e.len()]);
        }
    }
}

} // verus!
