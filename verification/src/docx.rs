//! Word documents: the XML of a meeting and the zip around it. The zip's
//! checksums and compression come from flate2.

use vstd::prelude::*;
use vstd::string::StringSliceAdditionalSpecFns;
use std::io::Write;
use crate::meetings::{
    clock_label, clock_text, escaped, esc, names_view, rendered, segments_view, speaker_at,
    speaker_change, speakers_in_range, Segment, SegmentView,
};
use crate::bytes::{le16, le32, push16, push32, push_bytes, wrap16, wrap32};
use crate::numbers::{digits_of, push_digits};
use crate::text::{append, chars_of, string_of};

verus! {

// --- what flate2 computes -----------------------------------------------------------------

/// The CRC-32 checksum (the one zip files carry) of the bytes.
pub uninterp spec fn crc32_of(data: Seq<u8>) -> u32;

/// The bytes deflated at flate2's default level.
pub uninterp spec fn deflated(data: Seq<u8>) -> Seq<u8>;

/// `flate2::Crc` over all of `data`: `new`, `update`, `sum`. The checksum is
/// named, not restated.
#[verifier::external_body]
fn crc32(data: &[u8]) -> (r: u32)
    ensures
        r == crc32_of(data@),
{
    let mut crc = flate2::Crc::new();
    crc.update(data);
    crc.sum()
}

/// `flate2::write::DeflateEncoder` into a vector at `Compression::default()`:
/// all of `data` written, then `finish`. Writing into a vector does not
/// fail; the compressed bytes are named, not restated.
#[verifier::external_body]
fn deflate(data: &[u8]) -> (r: Vec<u8>)
    ensures
        r@ == deflated(data@),
{
    let mut encoder = flate2::write::DeflateEncoder::new(Vec::new(), flate2::Compression::default());
    let _ = encoder.write_all(data);
    encoder.finish().unwrap_or_default()
}

// --- the zip ------------------------------------------------------------------------------

/// The local header of a stored file, then its compressed bytes.
pub open spec fn local_entry(name: Seq<u8>, data: Seq<u8>) -> Seq<u8> {
    let packed = deflated(data);
    le32(0x04034b50) + le16(20) + le16(0) + le16(8) + le16(0) + le16(0) + le32(crc32_of(data) as int)
        + le32(wrap32(packed.len() as int)) + le32(wrap32(data.len() as int)) + le16(wrap16(name.len() as int))
        + le16(0) + name + packed
}

/// The central directory record of a file stored at `offset`.
pub open spec fn directory_entry(name: Seq<u8>, data: Seq<u8>, offset: int) -> Seq<u8> {
    let packed = deflated(data);
    le32(0x02014b50) + le16(20) + le16(20) + le16(0) + le16(8) + le16(0) + le16(0) + le32(crc32_of(data) as int)
        + le32(wrap32(packed.len() as int)) + le32(wrap32(data.len() as int)) + le16(wrap16(name.len() as int))
        + le16(0) + le16(0) + le16(0) + le16(0) + le32(0) + le32(wrap32(offset)) + name
}

/// The file entries and the central directory after the first `k` files.
pub open spec fn zip_parts(files: Seq<(Seq<u8>, Seq<u8>)>, k: int) -> (Seq<u8>, Seq<u8>)
    decreases k,
{
    if k <= 0 {
        (Seq::empty(), Seq::empty())
    } else {
        let (out, dir) = zip_parts(files, k - 1);
        let (name, data) = files[k - 1];
        (out + local_entry(name, data), dir + directory_entry(name, data, out.len() as int))
    }
}

/// A zip archive of the files, each deflated, with its central directory.
pub open spec fn zip_spec(files: Seq<(Seq<u8>, Seq<u8>)>) -> Seq<u8> {
    let (out, dir) = zip_parts(files, files.len() as int);
    out + dir + le32(0x06054b50) + le16(0) + le16(0) + le16(wrap16(files.len() as int)) + le16(
        wrap16(files.len() as int),
    ) + le32(wrap32(dir.len() as int)) + le32(wrap32(out.len() as int)) + le16(0)
}

/// A zip archive of the named files.
#[verifier::spinoff_prover]
#[verifier::rlimit(30)]
pub fn zip(files: &[(&str, &[u8])]) -> (r: Vec<u8>)
    ensures
        r@ == zip_spec(files@.map_values(|f: (&str, &[u8])| (f.0.spec_bytes(), f.1@))),
{
    let ghost fs = files@.map_values(|f: (&str, &[u8])| (f.0.spec_bytes(), f.1@));
    let mut out: Vec<u8> = Vec::new();
    let mut directory: Vec<u8> = Vec::new();
    let mut k: usize = 0;
    while k < files.len()
        invariant
            k <= files@.len(),
            fs == files@.map_values(|f: (&str, &[u8])| (f.0.spec_bytes(), f.1@)),
            (out@, directory@) == zip_parts(fs, k as int),
        decreases files.len() - k,
    {
        let (name, data) = files[k];
        let name_bytes = name.as_bytes();
        proof {
            assert(fs[k as int] == (name_bytes@, data@));
        }
        let offset = out.len();
        let crc = crc32(data);
        let packed = deflate(data);
        let ghost out0 = out@;
        let ghost dir0 = directory@;
        push32(&mut out, 0x04034b50);
        push16(&mut out, 20);
        push16(&mut out, 0);
        push16(&mut out, 8);
        push16(&mut out, 0);
        push16(&mut out, 0);
        push32(&mut out, crc as u64);
        push32(&mut out, packed.len() as u64 % 4294967296);
        push32(&mut out, data.len() as u64 % 4294967296);
        push16(&mut out, name_bytes.len() as u64 % 65536);
        push16(&mut out, 0);
        push_bytes(&mut out, name_bytes);
        push_bytes(&mut out, &packed);

        push32(&mut directory, 0x02014b50);
        push16(&mut directory, 20);
        push16(&mut directory, 20);
        push16(&mut directory, 0);
        push16(&mut directory, 8);
        push16(&mut directory, 0);
        push16(&mut directory, 0);
        push32(&mut directory, crc as u64);
        push32(&mut directory, packed.len() as u64 % 4294967296);
        push32(&mut directory, data.len() as u64 % 4294967296);
        push16(&mut directory, name_bytes.len() as u64 % 65536);
        push16(&mut directory, 0);
        push16(&mut directory, 0);
        push16(&mut directory, 0);
        push16(&mut directory, 0);
        push32(&mut directory, 0);
        push32(&mut directory, offset as u64 % 4294967296);
        push_bytes(&mut directory, name_bytes);
        proof {
            assert(out@ =~= out0 + local_entry(name_bytes@, data@));
            assert(directory@ =~= dir0 + directory_entry(name_bytes@, data@, out0.len() as int));
        }
        k += 1;
    }
    let dir_offset = out.len() as u64 % 4294967296;
    let dir_size = directory.len() as u64 % 4294967296;
    let ghost out1 = out@;
    push_bytes(&mut out, &directory);
    push32(&mut out, 0x06054b50);
    push16(&mut out, 0);
    push16(&mut out, 0);
    push16(&mut out, files.len() as u64 % 65536);
    push16(&mut out, files.len() as u64 % 65536);
    push32(&mut out, dir_size);
    push32(&mut out, dir_offset);
    push16(&mut out, 0);
    proof {
        assert(out@ =~= zip_spec(fs));
    }
    out
}

// --- the document ------------------------------------------------------------------------

/// The content types part of a document.
pub const CONTENT_TYPES: &'static str = "<?xml version=\"1.0\" encoding=\"UTF-8\" standalone=\"yes\"?>\n<Types xmlns=\"http://schemas.openxmlformats.org/package/2006/content-types\"><Default Extension=\"rels\" ContentType=\"application/vnd.openxmlformats-package.relationships+xml\"/><Default Extension=\"xml\" ContentType=\"application/xml\"/><Override PartName=\"/word/document.xml\" ContentType=\"application/vnd.openxmlformats-officedocument.wordprocessingml.document.main+xml\"/></Types>";

/// The relationships part of a document.
pub const RELS: &'static str = "<?xml version=\"1.0\" encoding=\"UTF-8\" standalone=\"yes\"?>\n<Relationships xmlns=\"http://schemas.openxmlformats.org/package/2006/relationships\"><Relationship Id=\"rId1\" Type=\"http://schemas.openxmlformats.org/officeDocument/2006/relationships/officeDocument\" Target=\"word/document.xml\"/></Relationships>";

/// A paragraph: size in half points, bold or not, a colour, and space
/// above in twentieths of a point (as Word counts them).
pub open spec fn paragraph_spec(
    text: Seq<char>,
    half_points: u32,
    bold: bool,
    color: Option<Seq<char>>,
    before: u32,
) -> Seq<char> {
    let props = "<w:sz w:val=\""@ + digits_of(half_points as nat) + "\"/>"@ + (if bold { "<w:b/>"@ } else {
        Seq::empty()
    }) + (match color {
        Some(c) => "<w:color w:val=\""@ + c + "\"/>"@,
        None => Seq::empty(),
    });
    let spacing = if before > 0 {
        "<w:pPr><w:spacing w:before=\""@ + digits_of(before as nat) + "\"/></w:pPr>"@
    } else {
        Seq::empty()
    };
    "<w:p>"@ + spacing + "<w:r><w:rPr>"@ + props + "</w:rPr><w:t xml:space=\"preserve\">"@ + escaped(text)
        + "</w:t></w:r></w:p>"@
}

/// A paragraph of a document.
pub fn paragraph(text: &str, half_points: u32, bold: bool, color: Option<&str>, before: u32) -> (r: String)
    ensures
        r@ == paragraph_spec(
            text@,
            half_points,
            bold,
            match color {
                Some(c) => Some(c@),
                None => None,
            },
            before,
        ),
{
    let ghost c = match color {
        Some(c) => Some(c@),
        None => None,
    };
    let mut spacing: Vec<char> = Vec::new();
    if before > 0 {
        append(&mut spacing, &chars_of("<w:pPr><w:spacing w:before=\""));
        push_digits(before as u64, &mut spacing);
        append(&mut spacing, &chars_of("\"/></w:pPr>"));
    }
    proof {
        if before > 0 {
            assert(spacing@ =~= "<w:pPr><w:spacing w:before=\""@ + digits_of(before as nat) + "\"/></w:pPr>"@);
        } else {
            assert(spacing@ =~= Seq::<char>::empty());
        }
    }
    let mut props = chars_of("<w:sz w:val=\"");
    push_digits(half_points as u64, &mut props);
    append(&mut props, &chars_of("\"/>"));
    let ghost p0 = props@;
    if bold {
        append(&mut props, &chars_of("<w:b/>"));
    }
    let ghost p1 = props@;
    proof {
        assert(p1 == p0 + (if bold { "<w:b/>"@ } else { Seq::<char>::empty() })) by {
            if !bold {
                assert(p0 + Seq::<char>::empty() =~= p0);
            }
        }
    }
    match color {
        Some(cv) => {
            append(&mut props, &chars_of("<w:color w:val=\""));
            append(&mut props, &chars_of(cv));
            append(&mut props, &chars_of("\"/>"));
            proof {
                assert(props@ =~= p1 + ("<w:color w:val=\""@ + cv@ + "\"/>"@));
            }
        },
        None => {
            proof {
                assert(props@ =~= p1 + Seq::<char>::empty());
            }
        },
    }
    proof {
        assert(props@ =~= "<w:sz w:val=\""@ + digits_of(half_points as nat) + "\"/>"@ + (if bold {
            "<w:b/>"@
        } else {
            Seq::empty()
        }) + (match c {
            Some(cc) => "<w:color w:val=\""@ + cc + "\"/>"@,
            None => Seq::empty(),
        }));
    }
    let mut out = chars_of("<w:p>");
    append(&mut out, &spacing);
    append(&mut out, &chars_of("<w:r><w:rPr>"));
    append(&mut out, &props);
    append(&mut out, &chars_of("</w:rPr><w:t xml:space=\"preserve\">"));
    append(&mut out, &chars_of(esc(text).as_str()));
    append(&mut out, &chars_of("</w:t></w:r></w:p>"));
    proof {
        assert(out@ =~= paragraph_spec(text@, half_points, bold, c, before));
    }
    string_of(&out)
}

/// A line of the timeline: its time small and grey, then the text.
pub open spec fn segment_paragraph(segs: Seq<SegmentView>, i: int, names: Seq<(Seq<char>, Seq<char>)>) -> Seq<char> {
    (match speaker_change(segs, i, names) {
        Some(n) => paragraph_spec(n, 24, true, None, 320),
        None => Seq::empty(),
    }) + "<w:p><w:r><w:rPr><w:sz w:val=\"18\"/><w:color w:val=\"8A8A8A\"/></w:rPr><w:t xml:space=\"preserve\">"@
        + escaped(clock_text(segs[i].start)) + "  </w:t></w:r><w:r><w:rPr><w:sz w:val=\"22\"/></w:rPr><w:t xml:space=\"preserve\">"@
        + escaped(segs[i].text) + "</w:t></w:r></w:p>"@
}

/// The main part of a document: title, duration in grey, then the timeline.
pub open spec fn document_spec(
    title: Seq<char>,
    duration: Seq<char>,
    segs: Seq<SegmentView>,
    names: Seq<(Seq<char>, Seq<char>)>,
) -> Seq<char> {
    "<?xml version=\"1.0\" encoding=\"UTF-8\" standalone=\"yes\"?>\n<w:document xmlns:w=\"http://schemas.openxmlformats.org/wordprocessingml/2006/main\"><w:body>"@
        + paragraph_spec(title, 36, true, None, 0) + paragraph_spec(duration, 20, false, Some("8A8A8A"@), 0)
        + rendered(segs.len() as int, |i: int| segment_paragraph(segs, i, names))
        + "<w:sectPr/></w:body></w:document>"@
}

/// The main part of a document for a meeting.
pub fn document(title: &str, duration: &str, segments: &[Segment], names: &[(String, String)]) -> (r: String)
    requires
        speakers_in_range(segments_view(segments@)),
    ensures
        r@ == document_spec(title@, duration@, segments_view(segments@), names_view(names@)),
{
    let ghost sv = segments_view(segments@);
    let ghost nv = names_view(names@);
    let mut out = chars_of("<?xml version=\"1.0\" encoding=\"UTF-8\" standalone=\"yes\"?>\n<w:document xmlns:w=\"http://schemas.openxmlformats.org/wordprocessingml/2006/main\"><w:body>");
    append(&mut out, &chars_of(paragraph(title, 36, true, None, 0).as_str()));
    append(&mut out, &chars_of(paragraph(duration, 20, false, Some("8A8A8A"), 0).as_str()));
    let ghost head = out@;
    let ghost f = |i: int| segment_paragraph(sv, i, nv);
    let mut i: usize = 0;
    while i < segments.len()
        invariant
            i <= segments@.len(),
            sv == segments_view(segments@),
            nv == names_view(names@),
            speakers_in_range(sv),
            f == (|i: int| segment_paragraph(sv, i, nv)),
            out@ == head + rendered(i as int, f),
        decreases segments.len() - i,
    {
        match speaker_at(segments, i, names) {
            Some(name) => {
                append(&mut out, &chars_of(paragraph(name.as_str(), 24, true, None, 320).as_str()));
            },
            None => {},
        }
        append(&mut out, &chars_of("<w:p><w:r><w:rPr><w:sz w:val=\"18\"/><w:color w:val=\"8A8A8A\"/></w:rPr><w:t xml:space=\"preserve\">"));
        append(&mut out, &chars_of(esc(clock_label(segments[i].start).as_str()).as_str()));
        append(&mut out, &chars_of("  </w:t></w:r><w:r><w:rPr><w:sz w:val=\"22\"/></w:rPr><w:t xml:space=\"preserve\">"));
        append(&mut out, &chars_of(esc(segments[i].text.as_str()).as_str()));
        append(&mut out, &chars_of("</w:t></w:r></w:p>"));
        proof {
            assert(sv[i as int].start == segments@[i as int].start);
            assert(sv[i as int].text == segments@[i as int].text@);
            assert(out@ =~= head + rendered(i + 1, f));
        }
        i += 1;
    }
    append(&mut out, &chars_of("<w:sectPr/></w:body></w:document>"));
    string_of(&out)
}

/// A Word document for a meeting: the three parts in a zip.
pub open spec fn docx_spec(
    title: Seq<char>,
    duration: Seq<char>,
    segs: Seq<SegmentView>,
    names: Seq<(Seq<char>, Seq<char>)>,
) -> Seq<u8> {
    zip_spec(
        seq![
            ("[Content_Types].xml".spec_bytes(), CONTENT_TYPES.spec_bytes()),
            ("_rels/.rels".spec_bytes(), RELS.spec_bytes()),
            ("word/document.xml".spec_bytes(), vstd::utf8::encode_utf8(document_spec(title, duration, segs, names))),
        ],
    )
}

/// A Word document for a meeting.
#[verifier::spinoff_prover]
#[verifier::rlimit(40)]
pub fn build(title: &str, duration: &str, segments: &[Segment], names: &[(String, String)]) -> (r: Vec<u8>)
    requires
        speakers_in_range(segments_view(segments@)),
    ensures
        r@ == docx_spec(title@, duration@, segments_view(segments@), names_view(names@)),
{
    let doc = document(title, duration, segments, names);
    let files: [(&str, &[u8]); 3] = [
        ("[Content_Types].xml", CONTENT_TYPES.as_bytes()),
        ("_rels/.rels", RELS.as_bytes()),
        ("word/document.xml", doc.as_str().as_bytes()),
    ];
    let r = zip(&files);
    proof {
        assert(files@.map_values(|f: (&str, &[u8])| (f.0.spec_bytes(), f.1@)) =~= seq![
            ("[Content_Types].xml".spec_bytes(), CONTENT_TYPES.spec_bytes()),
            ("_rels/.rels".spec_bytes(), RELS.spec_bytes()),
            ("word/document.xml".spec_bytes(), vstd::utf8::encode_utf8(doc@)),
        ]);
    }
    r
}

} // verus!
