use solflow::pdf::objects::{document, FontMetrics};
use solflow::pdf::{escape, to_unicode_cmap, to_unicode_text, unicode_pairs, Face};
use solflow::ttf::Font;

fn be16(out: &mut Vec<u8>, v: u16) {
    out.extend_from_slice(&v.to_be_bytes());
}

fn be32(out: &mut Vec<u8>, v: u32) {
    out.extend_from_slice(&v.to_be_bytes());
}

fn head() -> Vec<u8> {
    let mut t = vec![0u8; 54];
    t[18..20].copy_from_slice(&2048u16.to_be_bytes());
    t[36..38].copy_from_slice(&(-100i16).to_be_bytes());
    t[38..40].copy_from_slice(&(-200i16).to_be_bytes());
    t[40..42].copy_from_slice(&1000i16.to_be_bytes());
    t[42..44].copy_from_slice(&900i16.to_be_bytes());
    t
}

fn hhea(ascent: i16) -> Vec<u8> {
    let mut t = vec![0u8; 36];
    t[4..6].copy_from_slice(&ascent.to_be_bytes());
    t[6..8].copy_from_slice(&(-200i16).to_be_bytes());
    t[34..36].copy_from_slice(&3u16.to_be_bytes());
    t
}

fn maxp() -> Vec<u8> {
    let mut t = vec![0u8; 6];
    t[4..6].copy_from_slice(&5u16.to_be_bytes());
    t
}

fn hmtx() -> Vec<u8> {
    let mut t = Vec::new();
    for w in [500u16, 600, 700] {
        be16(&mut t, w);
        be16(&mut t, 0);
    }
    t
}

fn os2(cap: i16) -> Vec<u8> {
    let mut t = vec![0u8; 96];
    t[0..2].copy_from_slice(&2u16.to_be_bytes());
    t[88..90].copy_from_slice(&cap.to_be_bytes());
    t
}

/// A Windows Unicode character map with a format 4 subtable: A..C map to
/// glyphs 1..3 by a delta, a..b look their glyphs up one by one (a is 4,
/// b has none), and the closing segment.
fn cmap4() -> Vec<u8> {
    let mut t = Vec::new();
    be16(&mut t, 0);
    be16(&mut t, 1);
    be16(&mut t, 3);
    be16(&mut t, 1);
    be32(&mut t, 12);
    be16(&mut t, 4);
    be16(&mut t, 0);
    be16(&mut t, 0);
    be16(&mut t, 6);
    be16(&mut t, 0);
    be16(&mut t, 0);
    be16(&mut t, 0);
    for e in [67u16, 98, 0xFFFF] {
        be16(&mut t, e);
    }
    be16(&mut t, 0);
    for s in [65u16, 97, 0xFFFF] {
        be16(&mut t, s);
    }
    for d in [65472u16, 0, 1] {
        be16(&mut t, d);
    }
    for r in [0u16, 4, 0] {
        be16(&mut t, r);
    }
    be16(&mut t, 4);
    be16(&mut t, 0);
    t
}

/// A format 12 character map: a..z map to glyphs 10..35.
fn cmap12() -> Vec<u8> {
    let mut t = Vec::new();
    be16(&mut t, 0);
    be16(&mut t, 1);
    be16(&mut t, 3);
    be16(&mut t, 10);
    be32(&mut t, 12);
    be16(&mut t, 12);
    be16(&mut t, 0);
    be32(&mut t, 28);
    be32(&mut t, 0);
    be32(&mut t, 1);
    be32(&mut t, 97);
    be32(&mut t, 122);
    be32(&mut t, 10);
    t
}

fn font_bytes(tables: &[(&[u8; 4], Vec<u8>)]) -> &'static [u8] {
    let mut out = Vec::new();
    be32(&mut out, 0x0001_0000);
    be16(&mut out, tables.len() as u16);
    be16(&mut out, 0);
    be16(&mut out, 0);
    be16(&mut out, 0);
    let mut at = 12 + 16 * tables.len();
    let mut body = Vec::new();
    for (tag, data) in tables {
        out.extend_from_slice(&tag[..]);
        be32(&mut out, 0);
        be32(&mut out, at as u32);
        be32(&mut out, data.len() as u32);
        body.extend_from_slice(data);
        at += data.len();
    }
    out.extend_from_slice(&body);
    Box::leak(out.into_boxed_slice())
}

fn full_font() -> &'static [u8] {
    font_bytes(&[
        (b"head", head()),
        (b"hhea", hhea(800)),
        (b"maxp", maxp()),
        (b"hmtx", hmtx()),
        (b"OS/2", os2(700)),
        (b"cmap", cmap4()),
    ])
}

#[test]
fn font_sizes_come_from_the_tables() {
    let data = full_font();
    let font = Font::parse(data).unwrap();
    assert_eq!(font.units_per_em, 2048);
    assert_eq!(font.ascent, 800);
    assert_eq!(font.descent, -200);
    assert_eq!(font.cap_height, 700);
    assert_eq!(font.bbox, [-100, -200, 1000, 900]);
    assert_eq!(font.num_glyphs, 5);
    assert_eq!(font.bytes().len(), data.len());
}

#[test]
fn format4_glyphs_by_delta_and_by_array() {
    let font = Font::parse(full_font()).unwrap();
    assert_eq!(font.glyph('A'), 1);
    assert_eq!(font.glyph('B'), 2);
    assert_eq!(font.glyph('C'), 3);
    assert_eq!(font.glyph('a'), 4);
    assert_eq!(font.glyph('b'), 0);
    assert_eq!(font.glyph('z'), 0);
    assert_eq!(font.glyph('Ж'), 0);
}

#[test]
fn format12_is_preferred() {
    let mut map = cmap12();
    // A second record, for the format 4 subtable, after the first one.
    let four = cmap4();
    let sub4 = &four[12..];
    map[2..4].copy_from_slice(&2u16.to_be_bytes());
    let mut with_two = Vec::new();
    with_two.extend_from_slice(&map[0..4]);
    with_two.extend_from_slice(&[0, 3, 0, 1]);
    with_two.extend_from_slice(&20u32.to_be_bytes());
    with_two.extend_from_slice(&[0, 3, 0, 10]);
    with_two.extend_from_slice(&(20 + sub4.len() as u32).to_be_bytes());
    with_two.extend_from_slice(sub4);
    with_two.extend_from_slice(&map[12..]);
    let font = Font::parse(font_bytes(&[
        (b"head", head()),
        (b"hhea", hhea(800)),
        (b"maxp", maxp()),
        (b"hmtx", hmtx()),
        (b"cmap", with_two),
    ]))
    .unwrap();
    assert_eq!(font.glyph('a'), 10);
    assert_eq!(font.glyph('z'), 35);
    assert_eq!(font.glyph('A'), 0);
}

#[test]
fn widths_repeat_the_last_one() {
    let font = Font::parse(full_font()).unwrap();
    assert_eq!(font.raw_advance(0), 500);
    assert_eq!(font.raw_advance(1), 600);
    assert_eq!(font.raw_advance(2), 700);
    assert_eq!(font.raw_advance(4), 700);
}

#[test]
fn cap_height_is_guessed_without_os2() {
    let font = Font::parse(font_bytes(&[
        (b"head", head()),
        (b"hhea", hhea(800)),
        (b"maxp", maxp()),
        (b"hmtx", hmtx()),
        (b"cmap", cmap4()),
    ]))
    .unwrap();
    assert_eq!(font.cap_height, 576);
    let odd = Font::parse(font_bytes(&[
        (b"head", head()),
        (b"hhea", hhea(-37)),
        (b"maxp", maxp()),
        (b"hmtx", hmtx()),
        (b"OS/2", os2(0)),
        (b"cmap", cmap4()),
    ]))
    .unwrap();
    assert_eq!(odd.cap_height, (-37.0f32 * 0.72) as i16);
}

#[test]
fn broken_fonts_are_refused() {
    assert!(Font::parse(&[0, 1, 0]).is_none());
    let data = full_font();
    assert!(Font::parse(&data[..100]).is_none());
    assert!(Font::parse(&data[..data.len() - 20]).is_none());
    let no_cmap = font_bytes(&[(b"head", head()), (b"hhea", hhea(800)), (b"maxp", maxp()), (b"hmtx", hmtx())]);
    assert!(Font::parse(no_cmap).is_none());
}

#[test]
fn to_unicode_lists_the_glyphs_the_font_has() {
    let font = Font::parse(full_font()).unwrap();
    assert_eq!(unicode_pairs(&font), vec![(1, 0x41), (2, 0x42), (3, 0x43), (4, 0x61)]);
    let text = to_unicode_cmap(&font);
    assert!(text.starts_with("/CIDInit /ProcSet findresource begin\n12 dict begin\nbegincmap\n"));
    assert!(text.contains(
        "endcodespacerange\n4 beginbfchar\n<0001> <0041>\n<0002> <0042>\n<0003> <0043>\n<0004> <0061>\nendbfchar\nendcmap\n"
    ));
    assert!(text.ends_with("endcmap\nCMapName currentdict /CMap defineresource pop\nend\nend\n"));
}

#[test]
fn to_unicode_blocks_hold_a_hundred_pairs() {
    let pairs: Vec<(u16, u32)> = (0..150u32).map(|i| (i as u16 + 1, 0x400 + i)).collect();
    let text = to_unicode_text(&pairs);
    assert_eq!(text.matches("beginbfchar").count(), 2);
    assert!(text.contains("100 beginbfchar\n<0001> <0400>\n"));
    assert!(text.contains("<0064> <0463>\nendbfchar\n50 beginbfchar\n<0065> <0464>\n"));
    assert!(text.contains("<0096> <0495>\nendbfchar\nendcmap"));
    assert!(to_unicode_text(&[]).contains("endcodespacerange\nendcmap\n"));
}

#[test]
fn pdf_strings_escape_brackets_and_backslashes() {
    assert_eq!(escape("Sol Flow"), "Sol Flow");
    assert_eq!(escape("a(b)\\c"), "a\\(b\\)\\\\c");
    assert!(Face::Regular != Face::Medium);
}

fn metrics() -> FontMetrics {
    FontMetrics { bbox: [-48, -97, 488, 439], ascent: 390, descent: -97, cap_height: 341, widths: vec![244, 292, 341] }
}

fn find(hay: &[u8], needle: &[u8]) -> Option<usize> {
    hay.windows(needle.len()).position(|w| w == needle)
}

#[test]
fn pdf_file_has_every_object_where_the_table_says() {
    let font = Font::parse(full_font()).unwrap();
    let pages = vec![b"BT /F1 12 Tf ET\n".to_vec(), b"BT /F2 10 Tf ET\n".to_vec()];
    let pdf = document(&font, &metrics(), &font, &metrics(), &pages);
    assert!(pdf.starts_with(b"%PDF-1.7\n%\xE2\xE3\xCF\xD3\n1 0 obj\n<< /Length "));
    let text = String::from_utf8_lossy(&pdf).to_string();
    assert!(text.contains("/FontBBox [-48 -97 488 439] /ItalicAngle 0 /Ascent 390 /Descent -97 /CapHeight 341 /StemV 80 /FontFile2 1 0 R >>"));
    assert!(text.contains("/FontDescriptor 7 0 R /DW 500 /W [0 [244 292 341] ] /CIDToGIDMap /Identity >>"));
    assert!(text.contains("/BaseFont /InterMedium /Encoding /Identity-H /DescendantFonts [8 0 R] /ToUnicode 9 0 R >>"));
    assert!(text.contains("13 0 obj\n<< /Type /Page /Parent 15 0 R /MediaBox [0 0 595 842] /Resources << /Font << /F1 5 0 R /F2 10 0 R >> >> /Contents 11 0 R >>"));
    assert!(text.contains("15 0 obj\n<< /Type /Pages /Count 2 /Kids [13 0 R 14 0 R] >>"));
    assert!(text.contains("16 0 obj\n<< /Type /Catalog /Pages 15 0 R >>"));
    assert!(text.contains("17 0 obj\n<< /Producer (Sol Flow) >>"));
    assert!(text.contains("xref\n0 18\n0000000000 65535 f \n"));
    assert!(text.ends_with("%%EOF\n"));
    let xref = find(&pdf, b"\nxref\n").unwrap() + 1;
    let start: usize = text.rsplit("startxref\n").next().unwrap().trim_end_matches("\n%%EOF\n").parse().unwrap();
    assert_eq!(start, xref);
    let table = &text[text.find("65535 f \n").unwrap() + 9..text.find("trailer").unwrap()];
    let offsets: Vec<usize> = table.lines().map(|l| l[..10].parse().unwrap()).collect();
    assert_eq!(offsets.len(), 17);
    for (i, at) in offsets.iter().enumerate() {
        let head = format!("{} 0 obj\n", i + 1);
        assert_eq!(&pdf[*at..*at + head.len()], head.as_bytes());
    }
}
