//! The objects of an exported PDF: each of the two embedded fonts as a
//! compressed font file, a descriptor, a CID font with its widths, a
//! compressed ToUnicode map and the Type0 font; then the compressed content
//! stream of every page, the pages, the page tree, the catalog and the info.
//!
//! What is measured in floating point (the descriptor's numbers, the glyph
//! widths, the positions in the content streams) the caller hands in as
//! plain values.

use vstd::prelude::*;
use std::io::Write;
use crate::bytes::push_bytes;
use crate::numbers::{decimal, decimal_i64, digits_of, push_digits};
use crate::pdf::file::{push_str, push_text, utf8, write_file, file_spec};
use crate::pdf::{escape, escape_spec, to_unicode_cmap, to_unicode_spec, unicode_pairs_spec};
use crate::text::{append, chars_of, join, join_chars};
use crate::ttf::{Font, FontView};

verus! {

// --- what flate2 computes -----------------------------------------------------------------

/// The bytes compressed as a zlib stream at flate2's default level.
pub uninterp spec fn zlib_of(data: Seq<u8>) -> Seq<u8>;

/// `flate2::write::ZlibEncoder` into a vector at `Compression::default()`:
/// all of `data` written, then `finish` (on an error the bytes themselves).
/// Writing into a vector does not fail; the compressed bytes are named, not
/// restated.
#[verifier::external_body]
fn zlib(data: &[u8]) -> (r: Vec<u8>)
    ensures
        r@ == zlib_of(data@),
{
    let mut encoder = flate2::write::ZlibEncoder::new(Vec::new(), flate2::Compression::default());
    let _ = encoder.write_all(data);
    encoder.finish().unwrap_or_else(|_| data.to_vec())
}

// --- the texts of the objects --------------------------------------------------------------

/// What the caller measured of a font: the bounding box, ascent, descent
/// and height of capitals in thousandths of the type size, and the width of
/// every glyph.
pub struct FontMetrics {
    pub bbox: [i32; 4],
    pub ascent: i32,
    pub descent: i32,
    pub cap_height: i32,
    pub widths: Vec<i32>,
}

/// A stream: its dictionary, the data, the end.
pub open spec fn stream_body(dict: Seq<char>, data: Seq<u8>) -> Seq<u8> {
    utf8(dict + "\nstream\n"@) + data + utf8("\nendstream"@)
}

/// The dictionary of a compressed stream.
pub open spec fn packed_dict(len: nat) -> Seq<char> {
    "<< /Length "@ + digits_of(len) + " /Filter /FlateDecode >>"@
}

/// The dictionary of a compressed font file, with the size it unpacks to.
pub open spec fn font_file_dict(len: nat, raw: nat) -> Seq<char> {
    "<< /Length "@ + digits_of(len) + " /Length1 "@ + digits_of(raw) + " /Filter /FlateDecode >>"@
}

/// A compressed stream of the data.
pub open spec fn packed_stream(data: Seq<u8>) -> Seq<u8> {
    stream_body(packed_dict(zlib_of(data).len()), zlib_of(data))
}

/// The font descriptor.
pub open spec fn descriptor_text(name: Seq<char>, m: FontMetrics, file_id: nat) -> Seq<char> {
    "<< /Type /FontDescriptor /FontName /"@ + name + " /Flags 32 /FontBBox ["@ + decimal(m.bbox[0] as int)
        + " "@ + decimal(m.bbox[1] as int) + " "@ + decimal(m.bbox[2] as int) + " "@ + decimal(
        m.bbox[3] as int,
    ) + "] /ItalicAngle 0 /Ascent "@ + decimal(m.ascent as int) + " /Descent "@ + decimal(m.descent as int)
        + " /CapHeight "@ + decimal(m.cap_height as int) + " /StemV 80 /FontFile2 "@ + digits_of(file_id)
        + " 0 R >>"@
}

/// The widths written as numbers.
pub open spec fn decimals(w: Seq<i32>) -> Seq<Seq<char>>
    decreases w.len(),
{
    if w.len() == 0 {
        Seq::empty()
    } else {
        decimals(w.drop_last()).push(decimal(w.last() as int))
    }
}

/// One run of widths: its first glyph, then the widths between brackets.
pub open spec fn width_run(w: Seq<i32>, start: int, end: int) -> Seq<char> {
    digits_of(start as nat) + " ["@ + join(decimals(w.subrange(start, end)), " "@) + "] "@
}

/// The widths of the glyphs from `start` on, in runs of at most 512.
pub open spec fn width_runs(w: Seq<i32>, start: nat) -> Seq<char>
    decreases w.len() - start,
{
    if start >= w.len() {
        Seq::empty()
    } else if start + 512 < w.len() {
        width_run(w, start as int, (start + 512) as int) + width_runs(w, (start + 512) as nat)
    } else {
        width_run(w, start as int, w.len() as int)
    }
}

/// The CID font, with its widths.
pub open spec fn cid_font_text(name: Seq<char>, descriptor_id: nat, w: Seq<i32>) -> Seq<char> {
    "<< /Type /Font /Subtype /CIDFontType2 /BaseFont /"@ + name
        + " /CIDSystemInfo << /Registry (Adobe) /Ordering (Identity) /Supplement 0 >> /FontDescriptor "@
        + digits_of(descriptor_id) + " 0 R /DW 500 /W "@ + ("["@ + width_runs(w, 0) + "]"@)
        + " /CIDToGIDMap /Identity >>"@
}

/// The Type0 font over the CID font, with its ToUnicode map.
pub open spec fn type0_text(name: Seq<char>, cid_id: nat, cmap_id: nat) -> Seq<char> {
    "<< /Type /Font /Subtype /Type0 /BaseFont /"@ + name + " /Encoding /Identity-H /DescendantFonts ["@
        + digits_of(cid_id) + " 0 R] /ToUnicode "@ + digits_of(cmap_id) + " 0 R >>"@
}

/// The five objects of a font whose objects start after number `base`.
#[verifier::opaque]
pub open spec fn font_bodies(f: FontView, m: FontMetrics, name: Seq<char>, base: nat) -> Seq<Seq<u8>> {
    let packed = zlib_of(f.bytes);
    seq![
        stream_body(font_file_dict(packed.len(), f.bytes.len()), packed),
        utf8(descriptor_text(name, m, base + 1)),
        utf8(cid_font_text(name, base + 2, m.widths@)),
        packed_stream(utf8(to_unicode_spec(unicode_pairs_spec(f.cmap)))),
        utf8(type0_text(name, base + 3, base + 4)),
    ]
}

/// A page: A4, both fonts, its content stream.
pub open spec fn page_text(pages_id: nat, content_id: nat) -> Seq<char> {
    "<< /Type /Page /Parent "@ + digits_of(pages_id)
        + " 0 R /MediaBox [0 0 595 842] /Resources << /Font << /F1 5 0 R /F2 10 0 R >> >> /Contents "@
        + digits_of(content_id) + " 0 R >>"@
}

/// The page tree over the `p` pages numbered from `first`.
pub open spec fn pages_text(p: nat, first: nat) -> Seq<char> {
    "<< /Type /Pages /Count "@ + digits_of(p) + " /Kids ["@ + join(kids(first, p), " "@) + "] >>"@
}

/// The references to the `k` pages numbered from `first`.
pub open spec fn kids(first: nat, k: nat) -> Seq<Seq<char>>
    decreases k,
{
    if k == 0 {
        Seq::empty()
    } else {
        kids(first, (k - 1) as nat).push(digits_of((first + k - 1) as nat) + " 0 R"@)
    }
}

/// The compressed content streams.
pub open spec fn content_streams(cs: Seq<Seq<u8>>) -> Seq<Seq<u8>>
    decreases cs.len(),
{
    if cs.len() == 0 {
        Seq::empty()
    } else {
        content_streams(cs.drop_last()).push(packed_stream(cs.last()))
    }
}

/// The first `k` page objects of a document of `p` pages.
pub open spec fn page_objects(p: nat, k: nat) -> Seq<Seq<u8>>
    decreases k,
{
    if k == 0 {
        Seq::empty()
    } else {
        page_objects(p, (k - 1) as nat).push(utf8(page_text(11 + 2 * p, (11 + k - 1) as nat)))
    }
}

/// The catalog.
pub open spec fn catalog_text(pages_id: nat) -> Seq<char> {
    "<< /Type /Catalog /Pages "@ + digits_of(pages_id) + " 0 R >>"@
}

/// The document information: who made the file.
pub open spec fn info_text() -> Seq<char> {
    "<< /Producer ("@ + escape_spec("Sol Flow"@) + ") >>"@
}

/// All the objects, in order: the regular font's five (objects 1 to 5),
/// the medium font's five (6 to 10), the `p` content streams, the `p`
/// pages, the page tree, the catalog, the info.
#[verifier::opaque]
pub open spec fn pdf_bodies(
    regular: FontView,
    rm: FontMetrics,
    medium: FontView,
    mm: FontMetrics,
    contents: Seq<Seq<u8>>,
) -> Seq<Seq<u8>> {
    let p = contents.len();
    font_bodies(regular, rm, "Inter"@, 0) + font_bodies(medium, mm, "InterMedium"@, 5) + content_streams(
        contents,
    ) + page_objects(p, p) + seq![
        utf8(pages_text(p, 11 + p)),
        utf8(catalog_text(11 + 2 * p)),
        utf8(info_text()),
    ]
}

/// The PDF file: the objects, the catalog as root and the info.
pub open spec fn pdf_spec(
    regular: FontView,
    rm: FontMetrics,
    medium: FontView,
    mm: FontMetrics,
    contents: Seq<Seq<u8>>,
) -> Seq<u8> {
    let p = contents.len();
    file_spec(pdf_bodies(regular, rm, medium, mm, contents), 12 + 2 * p, 13 + 2 * p)
}

// --- building them ------------------------------------------------------------------------

fn make_stream(dict: Vec<char>, data: &[u8]) -> (r: Vec<u8>)
    ensures
        r@ == stream_body(dict@, data@),
{
    let mut d = dict;
    let ghost d0 = d@;
    append(&mut d, &chars_of("\nstream\n"));
    let mut out: Vec<u8> = Vec::new();
    push_text(&mut out, &d);
    push_bytes(&mut out, data);
    push_str(&mut out, "\nendstream");
    proof {
        assert(out@ =~= stream_body(d0, data@));
    }
    out
}

fn make_packed_stream(data: &[u8]) -> (r: Vec<u8>)
    ensures
        r@ == packed_stream(data@),
{
    let packed = zlib(data);
    let mut d = chars_of("<< /Length ");
    push_digits(packed.len() as u64, &mut d);
    append(&mut d, &chars_of(" /Filter /FlateDecode >>"));
    proof {
        assert(d@ =~= packed_dict(packed@.len()));
    }
    make_stream(d, &packed)
}

fn push_decimal(out: &mut Vec<char>, v: i32)
    ensures
        final(out)@ == old(out)@ + decimal(v as int),
{
    append(out, &decimal_i64(v as i64));
}

fn descriptor(name: &str, m: &FontMetrics, file_id: u64) -> (r: Vec<char>)
    ensures
        r@ == descriptor_text(name@, *m, file_id as nat),
{
    let mut t = chars_of("<< /Type /FontDescriptor /FontName /");
    append(&mut t, &chars_of(name));
    append(&mut t, &chars_of(" /Flags 32 /FontBBox ["));
    push_decimal(&mut t, m.bbox[0]);
    append(&mut t, &chars_of(" "));
    push_decimal(&mut t, m.bbox[1]);
    append(&mut t, &chars_of(" "));
    push_decimal(&mut t, m.bbox[2]);
    append(&mut t, &chars_of(" "));
    push_decimal(&mut t, m.bbox[3]);
    append(&mut t, &chars_of("] /ItalicAngle 0 /Ascent "));
    push_decimal(&mut t, m.ascent);
    append(&mut t, &chars_of(" /Descent "));
    push_decimal(&mut t, m.descent);
    append(&mut t, &chars_of(" /CapHeight "));
    push_decimal(&mut t, m.cap_height);
    append(&mut t, &chars_of(" /StemV 80 /FontFile2 "));
    push_digits(file_id, &mut t);
    append(&mut t, &chars_of(" 0 R >>"));
    proof {
        assert(t@ =~= descriptor_text(name@, *m, file_id as nat));
    }
    t
}

fn run(w: &Vec<i32>, start: usize, end: usize) -> (r: Vec<char>)
    requires
        start <= end <= w@.len(),
    ensures
        r@ == width_run(w@, start as int, end as int),
{
    let mut nums: Vec<Vec<char>> = Vec::new();
    let mut k = start;
    while k < end
        invariant
            start <= k <= end <= w@.len(),
            nums@.len() == k - start,
            forall|i: int| 0 <= i < nums@.len() ==> (#[trigger] nums@[i])@ == decimals(w@.subrange(start as int, k as int))[i],
            decimals(w@.subrange(start as int, k as int)).len() == k - start,
        decreases end - k,
    {
        let ghost before = decimals(w@.subrange(start as int, k as int));
        nums.push(decimal_i64(w[k] as i64));
        proof {
            assert(w@.subrange(start as int, k + 1).drop_last() =~= w@.subrange(start as int, k as int));
            assert(decimals(w@.subrange(start as int, k + 1)) == before.push(decimal(w@[k as int] as int)));
        }
        k += 1;
    }
    proof {
        assert(nums@.map_values(|x: Vec<char>| x@) =~= decimals(w@.subrange(start as int, end as int)));
    }
    let mut t: Vec<char> = Vec::new();
    push_digits(start as u64, &mut t);
    append(&mut t, &chars_of(" ["));
    append(&mut t, &join_chars(&nums, &chars_of(" ")));
    append(&mut t, &chars_of("] "));
    proof {
        assert(t@ =~= width_run(w@, start as int, end as int));
    }
    t
}

fn runs(w: &Vec<i32>) -> (r: Vec<char>)
    ensures
        r@ == width_runs(w@, 0),
{
    let mut t: Vec<char> = Vec::new();
    let mut start: usize = 0;
    proof {
        assert(t@ + width_runs(w@, 0) =~= width_runs(w@, 0));
    }
    while start < w.len()
        invariant
            start <= w@.len() || start == 0,
            width_runs(w@, 0) == t@ + width_runs(w@, start as nat),
        decreases w.len() - start,
    {
        let ghost t0 = t@;
        if w.len() - start > 512 {
            append(&mut t, &run(w, start, start + 512));
            proof {
                assert(t0 + width_runs(w@, start as nat) =~= t@ + width_runs(w@, (start + 512) as nat));
            }
            start = start + 512;
        } else {
            append(&mut t, &run(w, start, w.len()));
            proof {
                assert(width_runs(w@, w@.len() as nat) == Seq::<char>::empty());
                assert(t0 + width_runs(w@, start as nat) =~= t@ + width_runs(w@, w@.len() as nat));
            }
            start = w.len();
        }
    }
    proof {
        assert(width_runs(w@, start as nat) == Seq::<char>::empty());
        assert(t@ + Seq::<char>::empty() =~= t@);
    }
    t
}

fn cid_font(name: &str, descriptor_id: u64, w: &Vec<i32>) -> (r: Vec<char>)
    ensures
        r@ == cid_font_text(name@, descriptor_id as nat, w@),
{
    let mut t = chars_of("<< /Type /Font /Subtype /CIDFontType2 /BaseFont /");
    append(&mut t, &chars_of(name));
    append(
        &mut t,
        &chars_of(" /CIDSystemInfo << /Registry (Adobe) /Ordering (Identity) /Supplement 0 >> /FontDescriptor "),
    );
    push_digits(descriptor_id, &mut t);
    append(&mut t, &chars_of(" 0 R /DW 500 /W "));
    append(&mut t, &chars_of("["));
    append(&mut t, &runs(w));
    append(&mut t, &chars_of("]"));
    append(&mut t, &chars_of(" /CIDToGIDMap /Identity >>"));
    proof {
        assert(t@ =~= cid_font_text(name@, descriptor_id as nat, w@));
    }
    t
}

fn type0(name: &str, cid_id: u64, cmap_id: u64) -> (r: Vec<char>)
    ensures
        r@ == type0_text(name@, cid_id as nat, cmap_id as nat),
{
    let mut t = chars_of("<< /Type /Font /Subtype /Type0 /BaseFont /");
    append(&mut t, &chars_of(name));
    append(&mut t, &chars_of(" /Encoding /Identity-H /DescendantFonts ["));
    push_digits(cid_id, &mut t);
    append(&mut t, &chars_of(" 0 R] /ToUnicode "));
    push_digits(cmap_id, &mut t);
    append(&mut t, &chars_of(" 0 R >>"));
    proof {
        assert(t@ =~= type0_text(name@, cid_id as nat, cmap_id as nat));
    }
    t
}

fn text_bytes(t: &[char]) -> (r: Vec<u8>)
    ensures
        r@ == utf8(t@),
{
    let mut out: Vec<u8> = Vec::new();
    push_text(&mut out, t);
    proof {
        assert(out@ =~= utf8(t@));
    }
    out
}

fn push_font(bodies: &mut Vec<Vec<u8>>, font: &Font, m: &FontMetrics, name: &str, base: u64)
    requires
        base <= 5,
    ensures
        final(bodies)@.map_values(|b: Vec<u8>| b@) == old(bodies)@.map_values(|b: Vec<u8>| b@) + font_bodies(
            font@,
            *m,
            name@,
            base as nat,
        ),
        final(bodies)@.len() == old(bodies)@.len() + 5,
{
    let ghost b0 = bodies@.map_values(|b: Vec<u8>| b@);
    let raw = font.bytes();
    let packed = zlib(raw);
    let mut d = chars_of("<< /Length ");
    push_digits(packed.len() as u64, &mut d);
    append(&mut d, &chars_of(" /Length1 "));
    push_digits(raw.len() as u64, &mut d);
    append(&mut d, &chars_of(" /Filter /FlateDecode >>"));
    proof {
        assert(d@ =~= font_file_dict(packed@.len(), raw@.len()));
    }
    let file = make_stream(d, &packed);
    let desc = text_bytes(&descriptor(name, m, base + 1));
    let cid = text_bytes(&cid_font(name, base + 2, &m.widths));
    let map = to_unicode_cmap(font);
    let cmap = make_packed_stream(map.as_str().as_bytes());
    let t0 = text_bytes(&type0(name, base + 3, base + 4));
    bodies.push(file);
    bodies.push(desc);
    bodies.push(cid);
    bodies.push(cmap);
    bodies.push(t0);
    proof {
        reveal(font_bodies);
        assert(bodies@.map_values(|b: Vec<u8>| b@) =~= b0 + font_bodies(font@, *m, name@, base as nat));
    }
}

fn page(pages_id: u64, content_id: u64) -> (r: Vec<char>)
    ensures
        r@ == page_text(pages_id as nat, content_id as nat),
{
    let mut t = chars_of("<< /Type /Page /Parent ");
    push_digits(pages_id, &mut t);
    append(&mut t, &chars_of(" 0 R /MediaBox [0 0 595 842] /Resources << /Font << /F1 5 0 R /F2 10 0 R >> >> /Contents "));
    push_digits(content_id, &mut t);
    append(&mut t, &chars_of(" 0 R >>"));
    proof {
        assert(t@ =~= page_text(pages_id as nat, content_id as nat));
    }
    t
}

fn page_tree(p: u64, first: u64) -> (r: Vec<char>)
    requires
        first + p < u64::MAX,
    ensures
        r@ == pages_text(p as nat, first as nat),
{
    let mut refs: Vec<Vec<char>> = Vec::new();
    let mut j: u64 = 0;
    while j < p
        invariant
            j <= p,
            first + p < u64::MAX,
            refs@.len() == j,
            kids(first as nat, j as nat).len() == j,
            forall|i: int| 0 <= i < j ==> (#[trigger] refs@[i])@ == kids(first as nat, j as nat)[i],
        decreases p - j,
    {
        let mut k: Vec<char> = Vec::new();
        push_digits(first + j, &mut k);
        append(&mut k, &chars_of(" 0 R"));
        refs.push(k);
        proof {
            assert(kids(first as nat, (j + 1) as nat) == kids(first as nat, j as nat).push(
                digits_of((first + j) as nat) + " 0 R"@,
            ));
        }
        j += 1;
    }
    proof {
        assert(refs@.map_values(|x: Vec<char>| x@) =~= kids(first as nat, p as nat));
    }
    let mut t = chars_of("<< /Type /Pages /Count ");
    push_digits(p, &mut t);
    append(&mut t, &chars_of(" /Kids ["));
    append(&mut t, &join_chars(&refs, &chars_of(" ")));
    append(&mut t, &chars_of("] >>"));
    proof {
        assert(t@ =~= pages_text(p as nat, first as nat));
    }
    t
}

fn push_contents(bodies: &mut Vec<Vec<u8>>, contents: &Vec<Vec<u8>>)
    ensures
        final(bodies)@.map_values(|b: Vec<u8>| b@) == old(bodies)@.map_values(|b: Vec<u8>| b@) + content_streams(
            contents@.map_values(|c: Vec<u8>| c@),
        ),
        final(bodies)@.len() == old(bodies)@.len() + contents@.len(),
{
    let ghost cs = contents@.map_values(|c: Vec<u8>| c@);
    let ghost start = bodies@.map_values(|b: Vec<u8>| b@);
    let ghost mut bv = start;
    let mut j: usize = 0;
    proof {
        assert(cs.take(0) =~= Seq::<Seq<u8>>::empty());
        assert(bv =~= start + content_streams(cs.take(0)));
    }
    while j < contents.len()
        invariant
            j <= contents@.len(),
            cs == contents@.map_values(|c: Vec<u8>| c@),
            bodies@.len() == bv.len(),
            forall|i: int| 0 <= i < bv.len() ==> (#[trigger] bodies@[i])@ == bv[i],
            bv == start + content_streams(cs.take(j as int)),
            bv.len() == start.len() + j,
            start.len() == old(bodies)@.len(),
        decreases contents.len() - j,
    {
        let s = make_packed_stream(&contents[j]);
        bodies.push(s);
        proof {
            assert(cs.take(j + 1).drop_last() =~= cs.take(j as int));
            assert(cs[j as int] == contents@[j as int]@);
            bv = bv.push(packed_stream(cs[j as int]));
            assert(bv =~= start + content_streams(cs.take(j + 1)));
        }
        j += 1;
    }
    proof {
        assert(cs.take(cs.len() as int) =~= cs);
        assert(bodies@.map_values(|b: Vec<u8>| b@) =~= bv);
    }
}

fn push_pages(bodies: &mut Vec<Vec<u8>>, p: u64)
    requires
        p < 0x1000_0000,
    ensures
        final(bodies)@.map_values(|b: Vec<u8>| b@) == old(bodies)@.map_values(|b: Vec<u8>| b@) + page_objects(
            p as nat,
            p as nat,
        ),
        final(bodies)@.len() == old(bodies)@.len() + p,
{
    let ghost start = bodies@.map_values(|b: Vec<u8>| b@);
    let ghost mut bv = start;
    let pages_id = 11 + 2 * p;
    let mut k: u64 = 0;
    proof {
        assert(bv =~= start + page_objects(p as nat, 0));
    }
    while k < p
        invariant
            k <= p,
            p < 0x1000_0000,
            pages_id == 11 + 2 * p,
            bodies@.len() == bv.len(),
            forall|i: int| 0 <= i < bv.len() ==> (#[trigger] bodies@[i])@ == bv[i],
            bv == start + page_objects(p as nat, k as nat),
            bv.len() == start.len() + k,
            start.len() == old(bodies)@.len(),
        decreases p - k,
    {
        bodies.push(text_bytes(&page(pages_id, 11 + k)));
        proof {
            bv = bv.push(utf8(page_text((11 + 2 * p) as nat, (11 + k) as nat)));
            assert(bv =~= start + page_objects(p as nat, (k + 1) as nat));
        }
        k += 1;
    }
    proof {
        assert(bodies@.map_values(|b: Vec<u8>| b@) =~= bv);
    }
}

/// The PDF file of a document: the two fonts with what the caller measured
/// of them, and the content stream of each page.
#[verifier::spinoff_prover]
#[verifier::rlimit(80)]
pub fn document(
    regular: &Font,
    regular_metrics: &FontMetrics,
    medium: &Font,
    medium_metrics: &FontMetrics,
    contents: &Vec<Vec<u8>>,
) -> (r: Vec<u8>)
    requires
        contents@.len() < 0x1000_0000,
    ensures
        r@ == pdf_spec(
            regular@,
            *regular_metrics,
            medium@,
            *medium_metrics,
            contents@.map_values(|c: Vec<u8>| c@),
        ),
{
    let ghost cs = contents@.map_values(|c: Vec<u8>| c@);
    let p = contents.len() as u64;
    let mut bodies: Vec<Vec<u8>> = Vec::new();
    push_font(&mut bodies, regular, regular_metrics, "Inter", 0);
    push_font(&mut bodies, medium, medium_metrics, "InterMedium", 5);
    push_contents(&mut bodies, contents);
    push_pages(&mut bodies, p);
    let pages_id = 11 + 2 * p;
    let tree = text_bytes(&page_tree(p, 11 + p));
    let mut cat = chars_of("<< /Type /Catalog /Pages ");
    push_digits(pages_id, &mut cat);
    append(&mut cat, &chars_of(" 0 R >>"));
    proof {
        assert(cat@ =~= catalog_text(pages_id as nat));
    }
    let catalog = text_bytes(&cat);
    let mut info = chars_of("<< /Producer (");
    append(&mut info, &chars_of(escape("Sol Flow").as_str()));
    append(&mut info, &chars_of(") >>"));
    proof {
        assert(info@ =~= info_text());
    }
    let info_bytes = text_bytes(&info);
    let ghost before = bodies@.map_values(|b: Vec<u8>| b@);
    let ghost fr = font_bodies(regular@, *regular_metrics, "Inter"@, 0);
    let ghost fm = font_bodies(medium@, *medium_metrics, "InterMedium"@, 5);
    let ghost cstreams = content_streams(cs);
    let ghost pobjs = page_objects(p as nat, p as nat);
    assert(before == fr + fm + cstreams + pobjs);
    bodies.push(tree);
    bodies.push(catalog);
    bodies.push(info_bytes);
    proof {
        assert(bodies@.map_values(|b: Vec<u8>| b@) =~= before.push(tree@).push(catalog@).push(info_bytes@));
        assert(pdf_bodies(regular@, *regular_metrics, medium@, *medium_metrics, cs) == fr + fm + cstreams + pobjs
            + seq![tree@, catalog@, info_bytes@]) by {
            reveal(pdf_bodies);
        }
        assert(bodies@.map_values(|b: Vec<u8>| b@) =~= pdf_bodies(
            regular@,
            *regular_metrics,
            medium@,
            *medium_metrics,
            cs,
        ));
    }
    write_file(&bodies, 12 + 2 * p, 13 + 2 * p)
}

} // verus!
