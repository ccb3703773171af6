//! Reading a TrueType font as far as a PDF needs it: the glyph of a
//! character, the widths of the glyphs and the sizes from the head, hhea,
//! maxp and OS/2 tables. A font whose tables point outside its bytes is not
//! read (`None`).

use vstd::prelude::*;

verus! {

/// A big-endian 16-bit field at `off`, if it lies within the bytes.
pub open spec fn be16(d: Seq<u8>, off: int) -> Option<nat> {
    if 0 <= off && off + 2 <= d.len() {
        Some((d[off] * 256 + d[off + 1]) as nat)
    } else {
        None
    }
}

/// A big-endian 32-bit field at `off`, if it lies within the bytes.
pub open spec fn be32(d: Seq<u8>, off: int) -> Option<nat> {
    if 0 <= off && off + 4 <= d.len() {
        Some((d[off] * 16777216 + d[off + 1] * 65536 + d[off + 2] * 256 + d[off + 3]) as nat)
    } else {
        None
    }
}

/// A 16-bit field read as a signed number.
pub open spec fn signed(v: nat) -> int {
    if v >= 32768 {
        v - 65536
    } else {
        v as int
    }
}

fn read16(d: &[u8], off: u64) -> (r: Option<u16>)
    ensures
        match be16(d@, off as int) {
            Some(v) => r == Some(v as u16),
            None => r is None,
        },
{
    if off > d.len() as u64 || d.len() as u64 - off < 2 {
        return None;
    }
    let o = off as usize;
    Some(d[o] as u16 * 256 + d[o + 1] as u16)
}

fn read32(d: &[u8], off: u64) -> (r: Option<u32>)
    ensures
        match be32(d@, off as int) {
            Some(v) => r == Some(v as u32),
            None => r is None,
        },
{
    if off > d.len() as u64 || d.len() as u64 - off < 4 {
        return None;
    }
    let o = off as usize;
    Some(d[o] as u32 * 16777216 + d[o + 1] as u32 * 65536 + d[o + 2] as u32 * 256 + d[o + 3] as u32)
}

/// A 16-bit field as a signed number.
fn as_i16(v: u16) -> (r: i16)
    ensures
        r == signed(v as nat),
{
    if v >= 32768 {
        (v as i32 - 65536) as i16
    } else {
        v as i16
    }
}

// --- the table directory --------------------------------------------------------------------

/// The first `n` entries of the table directory: tag, start and length, or
/// `None` when one lies outside the bytes.
pub open spec fn directory(d: Seq<u8>, n: nat) -> Option<Seq<(Seq<u8>, nat, nat)>>
    decreases n,
{
    if n == 0 {
        Some(Seq::empty())
    } else {
        match directory(d, (n - 1) as nat) {
            None => None,
            Some(t) => {
                let off = 12 + (n - 1) * 16;
                if off + 16 > d.len() {
                    None
                } else {
                    Some(t.push((d.subrange(off, off + 4), be32(d, off + 8).unwrap(), be32(d, off + 12).unwrap())))
                }
            },
        }
    }
}

/// The start and length of a table: the last entry with its tag counts.
pub open spec fn table_of(t: Seq<(Seq<u8>, nat, nat)>, tag: Seq<u8>) -> Option<(nat, nat)>
    decreases t.len(),
{
    if t.len() == 0 {
        None
    } else if t.last().0 == tag {
        Some((t.last().1, t.last().2))
    } else {
        table_of(t.drop_last(), tag)
    }
}

/// Reads the table directory.
fn read_directory(d: &[u8]) -> (r: Option<Vec<([u8; 4], u32, u32)>>)
    ensures
        match be16(d@, 4) {
            None => r is None,
            Some(n) => match directory(d@, n) {
                None => r is None,
                Some(t) => r matches Some(v) && dir_view(v@) == t,
            },
        },
{
    let n = match read16(d, 4) {
        Some(n) => n,
        None => {
            return None;
        },
    };
    let mut out: Vec<([u8; 4], u32, u32)> = Vec::new();
    let mut i: u64 = 0;
    while i < n as u64
        invariant
            i <= n,
            be16(d@, 4) == Some(n as nat),
            directory(d@, i as nat) == Some(dir_view(out@)),
        decreases n - i,
    {
        let off = 12 + i * 16;
        if off + 16 > d.len() as u64 {
            proof {
                assert(directory(d@, (i + 1) as nat) is None);
                lemma_directory_stays_none(d@, (i + 1) as nat, n as nat);
            }
            return None;
        }
        let o = off as usize;
        let tag = [d[o], d[o + 1], d[o + 2], d[o + 3]];
        let start = read32(d, off + 8).unwrap();
        let len = read32(d, off + 12).unwrap();
        let ghost before = dir_view(out@);
        out.push((tag, start, len));
        proof {
            assert(tag@ =~= d@.subrange(off as int, off + 4));
            assert(dir_view(out@) =~= before.push((d@.subrange(off as int, off + 4), start as nat, len as nat)));
        }
        i += 1;
    }
    Some(out)
}

proof fn lemma_directory_stays_none(d: Seq<u8>, i: nat, n: nat)
    requires
        directory(d, i) is None,
        i <= n,
    ensures
        directory(d, n) is None,
    decreases n - i,
{
    if i < n {
        lemma_directory_stays_none(d, i + 1, n);
    }
}

/// The directory as plain values.
pub open spec fn dir_view(v: Seq<([u8; 4], u32, u32)>) -> Seq<(Seq<u8>, nat, nat)> {
    v.map_values(|e: ([u8; 4], u32, u32)| (e.0@, e.1 as nat, e.2 as nat))
}

/// Finds a table by tag.
fn find_table(t: &Vec<([u8; 4], u32, u32)>, tag: [u8; 4]) -> (r: Option<(u32, u32)>)
    ensures
        match r {
            Some(q) => table_of(dir_view(t@), tag@) == Some((q.0 as nat, q.1 as nat)),
            None => table_of(dir_view(t@), tag@) is None,
        },
{
    let ghost tv = dir_view(t@);
    let mut i: usize = t.len();
    proof {
        assert(tv.take(tv.len() as int) =~= tv);
    }
    while i > 0
        invariant
            i <= t@.len(),
            tv == dir_view(t@),
            table_of(tv, tag@) == table_of(tv.take(i as int), tag@),
        decreases i,
    {
        proof {
            assert(tv.take(i as int).drop_last() =~= tv.take(i - 1));
        }
        let e = t[i - 1];
        if e.0[0] == tag[0] && e.0[1] == tag[1] && e.0[2] == tag[2] && e.0[3] == tag[3] {
            proof {
                assert(e.0@ =~= tag@);
            }
            return Some((e.1, e.2));
        }
        proof {
            assert(e.0@ != tag@) by {
                if e.0@ == tag@ {
                    assert(e.0@[0] == tag@[0] && e.0@[1] == tag@[1] && e.0@[2] == tag@[2] && e.0@[3] == tag@[3]);
                }
            }
        }
        i -= 1;
    }
    None
}

// --- the character map ----------------------------------------------------------------------

/// Whether an encoding record names Unicode: platform 0, or Windows (3)
/// with encoding 1 or 10.
pub open spec fn unicode_record(platform: nat, encoding: nat) -> bool {
    platform == 0 || (platform == 3 && (encoding == 1 || encoding == 10))
}

/// How much a subtable format is wanted: 12 (all of Unicode) over 4.
pub open spec fn rank_of(format: nat) -> nat {
    if format == 12 {
        2
    } else if format == 4 {
        1
    } else {
        0
    }
}

/// The best Unicode subtable among the first `n` encoding records of the
/// character map at `cmap`, with its rank; the first of equal rank wins.
/// `None` when a record or a subtable's format lies outside the bytes.
pub open spec fn best_sub(d: Seq<u8>, cmap: nat, n: nat) -> Option<Option<(nat, nat)>>
    decreases n,
{
    if n == 0 {
        Some(None)
    } else {
        match best_sub(d, cmap, (n - 1) as nat) {
            None => None,
            Some(best) => {
                let rec = cmap + 4 + (n - 1) * 8;
                match (be16(d, (rec) as int), be16(d, (rec + 2) as int), be32(d, (rec + 4) as int)) {
                    (Some(p), Some(e), Some(o)) => if !unicode_record(p, e) {
                        Some(best)
                    } else {
                        match be16(d, (cmap + o) as int) {
                            None => None,
                            Some(f) => if rank_of(f) == 0 {
                                Some(best)
                            } else if best is None || rank_of(f) > best.unwrap().1 {
                                Some(Some(((cmap + o) as nat, rank_of(f))))
                            } else {
                                Some(best)
                            },
                        }
                    },
                    _ => None,
                }
            },
        }
    }
}

/// The first `n` groups of a format 12 subtable: first and last character
/// and the glyph of the first (as a 16-bit number).
pub open spec fn groups12(d: Seq<u8>, table: nat, n: nat) -> Option<Seq<(nat, nat, nat)>>
    decreases n,
{
    if n == 0 {
        Some(Seq::empty())
    } else {
        match groups12(d, table, (n - 1) as nat) {
            None => None,
            Some(s) => {
                let g = table + 16 + (n - 1) * 12;
                match (be32(d, (g) as int), be32(d, (g + 4) as int), be32(d, (g + 8) as int)) {
                    (Some(a), Some(b), Some(c)) => Some(s.push((a, b, c % 65536))),
                    _ => None,
                }
            },
        }
    }
}

/// The characters `start + k ..= end` of a sparse format 4 segment, each
/// looked up on its own in the glyph array from `base`; the lookup stops
/// where the array leaves the bytes, and characters without a glyph are left
/// out.
pub open spec fn sparse(d: Seq<u8>, base: nat, start: nat, end: nat, delta: nat, k: nat) -> Seq<(nat, nat, nat)>
    decreases end + 1 - (start + k),
{
    if start + k > end {
        Seq::empty()
    } else {
        let idx = base + 2 * k;
        if idx + 1 >= d.len() {
            Seq::empty()
        } else {
            let glyph = be16(d, idx as int).unwrap();
            let rest = sparse(d, base, start, end, delta, k + 1);
            if glyph != 0 {
                seq![((start + k) as nat, (start + k) as nat, (glyph + delta) % 65536)] + rest
            } else {
                rest
            }
        }
    }
}

/// Segment `i` of a format 4 subtable with `segx2` bytes of segment
/// numbers: a range of characters with one delta, or a sparse range.
pub open spec fn segment4(d: Seq<u8>, table: nat, segx2: nat, i: nat) -> Option<Seq<(nat, nat, nat)>> {
    let ends = table + 14;
    let starts = ends + segx2 + 2;
    let deltas = starts + segx2;
    let ranges = deltas + segx2;
    match (be16(d, (ends + 2 * i) as int), be16(d, (starts + 2 * i) as int)) {
        (Some(end), Some(start)) => if start > end || start == 65535 {
            Some(Seq::empty())
        } else {
            match (be16(d, (deltas + 2 * i) as int), be16(d, (ranges + 2 * i) as int)) {
                (Some(delta), Some(ro)) => if ro == 0 {
                    Some(seq![(start, end, (start + delta) % 65536)])
                } else {
                    Some(sparse(d, (ranges + 2 * i + ro) as nat, start, end, delta, 0))
                },
                _ => None,
            }
        },
        _ => None,
    }
}

/// The first `n` segments of a format 4 subtable, one after another.
pub open spec fn segments4(d: Seq<u8>, table: nat, segx2: nat, n: nat) -> Option<Seq<(nat, nat, nat)>>
    decreases n,
{
    if n == 0 {
        Some(Seq::empty())
    } else {
        match (segments4(d, table, segx2, (n - 1) as nat), segment4(d, table, segx2, (n - 1) as nat)) {
            (Some(a), Some(b)) => Some(a + b),
            _ => None,
        }
    }
}

/// The ranges of the character map at `cmap`: from its best Unicode
/// subtable, format 12 or 4.
pub open spec fn cmap_spec(d: Seq<u8>, cmap: nat) -> Option<Seq<(nat, nat, nat)>> {
    match be16(d, (cmap + 2) as int) {
        None => None,
        Some(count) => match best_sub(d, cmap, count) {
            Some(Some(best)) => {
                let table = best.0;
                match be16(d, table as int) {
                    Some(f) => if f == 12 {
                        match be32(d, (table + 12) as int) {
                            Some(groups) => groups12(d, table, groups),
                            None => None,
                        }
                    } else if f == 4 {
                        match be16(d, (table + 6) as int) {
                            Some(segx2) => segments4(d, table, segx2, segx2 / 2),
                            None => None,
                        }
                    } else {
                        None
                    },
                    None => None,
                }
            },
            _ => None,
        },
    }
}

/// Ranges as plain values.
pub open spec fn ranges_view(v: Seq<(u32, u32, u16)>) -> Seq<(nat, nat, nat)> {
    v.map_values(|r: (u32, u32, u16)| (r.0 as nat, r.1 as nat, r.2 as nat))
}

fn best_subtable(d: &[u8], cmap: u64, count: u16) -> (r: Option<Option<(u64, u64)>>)
    requires
        cmap < 0x1_0000_0000,
    ensures
        match best_sub(d@, cmap as nat, count as nat) {
            None => r is None,
            Some(None) => r == Some(None::<(u64, u64)>),
            Some(Some(b)) => b.0 < 0x2_0000_0000 && r == Some(Some((b.0 as u64, b.1 as u64))),
        },
{
    let mut best: Option<(u64, u64)> = None;
    let mut i: u64 = 0;
    while i < count as u64
        invariant
            i <= count,
            cmap < 0x1_0000_0000,
            match best {
                None => best_sub(d@, cmap as nat, i as nat) == Some(None::<(nat, nat)>),
                Some(b) => best_sub(d@, cmap as nat, i as nat) == Some(Some((b.0 as nat, b.1 as nat))),
            },
            best matches Some(b) ==> b.0 < 0x2_0000_0000,
        decreases count - i,
    {
        let rec = cmap + 4 + i * 8;
        let p = read16(d, rec);
        let e = read16(d, rec + 2);
        let o = read32(d, rec + 4);
        if p.is_none() || e.is_none() || o.is_none() {
            proof {
                lemma_best_stays_none(d@, cmap as nat, (i + 1) as nat, count as nat);
            }
            return None;
        }
        let p = p.unwrap();
        let e = e.unwrap();
        let o = o.unwrap();
        if p == 0 || (p == 3 && (e == 1 || e == 10)) {
            let f = match read16(d, cmap + o as u64) {
                Some(f) => f,
                None => {
                    proof {
                        lemma_best_stays_none(d@, cmap as nat, (i + 1) as nat, count as nat);
                    }
                    return None;
                },
            };
            let rank: u64 = if f == 12 {
                2
            } else if f == 4 {
                1
            } else {
                0
            };
            if rank > 0 {
                let better = match best {
                    None => true,
                    Some(b) => rank > b.1,
                };
                if better {
                    best = Some((cmap + o as u64, rank));
                }
            }
        }
        i += 1;
    }
    Some(best)
}

proof fn lemma_best_stays_none(d: Seq<u8>, cmap: nat, i: nat, n: nat)
    requires
        best_sub(d, cmap, i) is None,
        i <= n,
    ensures
        best_sub(d, cmap, n) is None,
    decreases n - i,
{
    if i < n {
        lemma_best_stays_none(d, cmap, i + 1, n);
    }
}

proof fn lemma_groups_stay_none(d: Seq<u8>, table: nat, i: nat, n: nat)
    requires
        groups12(d, table, i) is None,
        i <= n,
    ensures
        groups12(d, table, n) is None,
    decreases n - i,
{
    if i < n {
        lemma_groups_stay_none(d, table, i + 1, n);
    }
}

proof fn lemma_segments_stay_none(d: Seq<u8>, table: nat, segx2: nat, i: nat, n: nat)
    requires
        segments4(d, table, segx2, i) is None,
        i <= n,
    ensures
        segments4(d, table, segx2, n) is None,
    decreases n - i,
{
    if i < n {
        lemma_segments_stay_none(d, table, segx2, i + 1, n);
    }
}

/// The groups of a format 12 subtable.
fn read_groups(d: &[u8], table: u64, groups: u32) -> (r: Option<Vec<(u32, u32, u16)>>)
    requires
        table < 0x2_0000_0000,
    ensures
        match groups12(d@, table as nat, groups as nat) {
            None => r is None,
            Some(s) => r matches Some(v) && ranges_view(v@) == s,
        },
{
    let mut out: Vec<(u32, u32, u16)> = Vec::new();
    let mut i: u64 = 0;
    while i < groups as u64
        invariant
            i <= groups,
            table < 0x2_0000_0000,
            groups12(d@, table as nat, i as nat) == Some(ranges_view(out@)),
        decreases groups - i,
    {
        let g = table + 16 + i * 12;
        let a = read32(d, g);
        let b = read32(d, g + 4);
        let c = read32(d, g + 8);
        if a.is_none() || b.is_none() || c.is_none() {
            proof {
                lemma_groups_stay_none(d@, table as nat, (i + 1) as nat, groups as nat);
            }
            return None;
        }
        let ghost before = ranges_view(out@);
        let cv = c.unwrap();
        out.push((a.unwrap(), b.unwrap(), (cv % 65536) as u16));
        proof {
            assert(ranges_view(out@) =~= before.push((a.unwrap() as nat, b.unwrap() as nat, cv as nat % 65536)));
        }
        i += 1;
    }
    Some(out)
}

/// The characters of a sparse segment, appended to `out`.
fn read_sparse(d: &[u8], base: u64, start: u32, end: u32, delta: u16, out: &mut Vec<(u32, u32, u16)>)
    requires
        base < 0x4_0000_0000,
        start <= end < 65536,
    ensures
        ranges_view(final(out)@) == ranges_view(old(out)@) + sparse(d@, base as nat, start as nat, end as nat, delta as nat, 0),
{
    let ghost o0 = ranges_view(out@);
    let mut k: u64 = 0;
    proof {
        assert(ranges_view(out@).subrange(0, o0.len() as int) =~= o0);
        assert(ranges_view(out@).subrange(o0.len() as int, ranges_view(out@).len() as int) =~= Seq::<(nat, nat, nat)>::empty());
    }
    while start as u64 + k <= end as u64
        invariant
            base < 0x4_0000_0000,
            end < 65536,
            start + k <= end + 1,
            sparse(d@, base as nat, start as nat, end as nat, delta as nat, 0) == ranges_view(out@).subrange(
                o0.len() as int,
                ranges_view(out@).len() as int,
            ) + sparse(d@, base as nat, start as nat, end as nat, delta as nat, k as nat),
            ranges_view(out@).subrange(0, o0.len() as int) == o0,
            ranges_view(out@).len() >= o0.len(),
            o0 == ranges_view(old(out)@),
        decreases end + 1 - (start + k),
    {
        proof {
            assert(sparse(d@, base as nat, start as nat, end as nat, delta as nat, 0) == ranges_view(out@).subrange(
                o0.len() as int,
                ranges_view(out@).len() as int,
            ) + sparse(d@, base as nat, start as nat, end as nat, delta as nat, k as nat));
        }
        let idx = base + 2 * k;
        if idx + 1 >= d.len() as u64 {
            proof {
                let rest = ranges_view(out@).subrange(o0.len() as int, ranges_view(out@).len() as int);
                assert(sparse(d@, base as nat, start as nat, end as nat, delta as nat, k as nat) =~= Seq::empty());
                assert(rest + Seq::<(nat, nat, nat)>::empty() =~= rest);
                assert(ranges_view(out@) =~= o0 + rest);
            }
            return;
        }
        let glyph = read16(d, idx).unwrap();
        let ghost before = ranges_view(out@);
        if glyph != 0 {
            let code = start + k as u32;
            out.push((code, code, ((glyph as u32 + delta as u32) % 65536) as u16));
            proof {
                assert(ranges_view(out@) =~= before.push((code as nat, code as nat, ((glyph + delta) % 65536) as nat)));
            }
        }
        proof {
            assert(ranges_view(out@).subrange(0, o0.len() as int) =~= o0);
            assert(ranges_view(out@).subrange(o0.len() as int, ranges_view(out@).len() as int) =~= before.subrange(
                o0.len() as int,
                before.len() as int,
            ) + (if glyph != 0 {
                seq![((start + k) as nat, (start + k) as nat, ((glyph + delta) % 65536) as nat)]
            } else {
                Seq::empty()
            }));
        }
        k += 1;
    }
    proof {
        assert(ranges_view(out@) =~= o0 + ranges_view(out@).subrange(o0.len() as int, ranges_view(out@).len() as int));
    }
}

/// One segment of a format 4 subtable, appended to `out`; `false` when a
/// field of it lies outside the bytes.
fn read_segment(d: &[u8], table: u64, segx2: u16, i: u16, out: &mut Vec<(u32, u32, u16)>) -> (ok: bool)
    requires
        table < 0x2_0000_0000,
        i < 32768,
    ensures
        match segment4(d@, table as nat, segx2 as nat, i as nat) {
            None => !ok,
            Some(s) => ok && ranges_view(final(out)@) == ranges_view(old(out)@) + s,
        },
{
    let ends = table + 14;
    let starts = ends + segx2 as u64 + 2;
    let deltas = starts + segx2 as u64;
    let ranges = deltas + segx2 as u64;
    let i2 = 2 * i as u64;
    let end = match read16(d, ends + i2) {
        Some(v) => v as u32,
        None => {
            return false;
        },
    };
    let start = match read16(d, starts + i2) {
        Some(v) => v as u32,
        None => {
            return false;
        },
    };
    if start > end || start == 65535 {
        proof {
            assert(ranges_view(out@) =~= ranges_view(out@) + Seq::<(nat, nat, nat)>::empty());
        }
        return true;
    }
    let delta = match read16(d, deltas + i2) {
        Some(v) => v,
        None => {
            return false;
        },
    };
    let ro = match read16(d, ranges + i2) {
        Some(v) => v,
        None => {
            return false;
        },
    };
    if ro == 0 {
        let ghost before = ranges_view(out@);
        out.push((start, end, ((start + delta as u32) % 65536) as u16));
        proof {
            assert(ranges_view(out@) =~= before + seq![(start as nat, end as nat, ((start + delta) % 65536) as nat)]);
        }
    } else {
        read_sparse(d, ranges + i2 + ro as u64, start, end, delta, out);
    }
    true
}

/// The segments of a format 4 subtable.
fn read_segments(d: &[u8], table: u64, segx2: u16) -> (r: Option<Vec<(u32, u32, u16)>>)
    requires
        table < 0x2_0000_0000,
    ensures
        match segments4(d@, table as nat, segx2 as nat, segx2 as nat / 2) {
            None => r is None,
            Some(s) => r matches Some(v) && ranges_view(v@) == s,
        },
{
    let segs = segx2 / 2;
    let mut out: Vec<(u32, u32, u16)> = Vec::new();
    let mut i: u16 = 0;
    while i < segs
        invariant
            i <= segs,
            segs == segx2 / 2,
            table < 0x2_0000_0000,
            segments4(d@, table as nat, segx2 as nat, i as nat) == Some(ranges_view(out@)),
        decreases segs - i,
    {
        if !read_segment(d, table, segx2, i, &mut out) {
            proof {
                lemma_segments_stay_none(d@, table as nat, segx2 as nat, (i + 1) as nat, segs as nat);
            }
            return None;
        }
        i += 1;
    }
    Some(out)
}

/// The ranges of the character map at `cmap`.
fn read_cmap(d: &[u8], cmap: u64) -> (r: Option<Vec<(u32, u32, u16)>>)
    requires
        cmap < 0x1_0000_0000,
    ensures
        match cmap_spec(d@, cmap as nat) {
            None => r is None,
            Some(s) => r matches Some(v) && ranges_view(v@) == s,
        },
{
    let count = read16(d, cmap + 2)?;
    let best = best_subtable(d, cmap, count)?;
    let (table, _) = best?;
    let format = read16(d, table)?;
    if format == 12 {
        let groups = read32(d, table + 12)?;
        read_groups(d, table, groups)
    } else if format == 4 {
        let segx2 = read16(d, table + 6)?;
        read_segments(d, table, segx2)
    } else {
        None
    }
}

// --- the font -------------------------------------------------------------------------------

/// The tags of the tables that are read.
pub open spec fn tag_head() -> Seq<u8> {
    seq![104u8, 101u8, 97u8, 100u8]
}

pub open spec fn tag_hhea() -> Seq<u8> {
    seq![104u8, 104u8, 101u8, 97u8]
}

pub open spec fn tag_maxp() -> Seq<u8> {
    seq![109u8, 97u8, 120u8, 112u8]
}

pub open spec fn tag_hmtx() -> Seq<u8> {
    seq![104u8, 109u8, 116u8, 120u8]
}

pub open spec fn tag_cmap() -> Seq<u8> {
    seq![99u8, 109u8, 97u8, 112u8]
}

pub open spec fn tag_os2() -> Seq<u8> {
    seq![79u8, 83u8, 47u8, 50u8]
}

/// The first `n` advance widths of the hmtx table at `hmtx`, or `None` when
/// one lies outside the bytes.
pub open spec fn widths_of(d: Seq<u8>, hmtx: nat, n: nat) -> Option<Seq<u16>>
    decreases n,
{
    if n == 0 {
        Some(Seq::empty())
    } else {
        match (widths_of(d, hmtx, (n - 1) as nat), be16(d, (hmtx + 4 * (n - 1)) as int)) {
            (Some(w), Some(v)) => Some(w.push(v as u16)),
            _ => None,
        }
    }
}

/// Without an OS/2 table that knows it, the height of capitals is taken as
/// 72 hundredths of the ascent, cut towards zero.
pub open spec fn cap_guess(ascent: int) -> int {
    if ascent >= 0 {
        ascent * 18 / 25
    } else {
        -((-ascent) * 18 / 25)
    }
}

/// The height of capitals: from an OS/2 table of at least 90 bytes and
/// version 2 or later when it gives a positive one, else the guess.
pub open spec fn cap_of(d: Seq<u8>, t: Seq<(Seq<u8>, nat, nat)>, ascent: int) -> Option<int> {
    match table_of(t, tag_os2()) {
        Some(p) => if p.1 >= 90 {
            match be16(d, p.0 as int) {
                None => None,
                Some(version) => if version >= 2 {
                    match be16(d, (p.0 + 88) as int) {
                        None => None,
                        Some(v) => if signed(v) > 0 {
                            Some(signed(v))
                        } else {
                            Some(cap_guess(ascent))
                        },
                    }
                } else {
                    Some(cap_guess(ascent))
                },
            }
        } else {
            Some(cap_guess(ascent))
        },
        None => Some(cap_guess(ascent)),
    }
}

/// A font as plain values.
pub struct FontView {
    pub bytes: Seq<u8>,
    pub units_per_em: u16,
    pub widths: Seq<u16>,
    pub cmap: Seq<(nat, nat, nat)>,
    pub ascent: i16,
    pub descent: i16,
    pub cap_height: i16,
    pub bbox: Seq<i16>,
    pub num_glyphs: u16,
}

/// What the sizes of a font read from its tables are, given the directory.
pub open spec fn font_in(d: Seq<u8>, t: Seq<(Seq<u8>, nat, nat)>) -> Option<FontView> {
    match (table_of(t, tag_head()), table_of(t, tag_hhea()), table_of(t, tag_maxp()), table_of(t, tag_hmtx()), table_of(t, tag_cmap())) {
        (Some(head), Some(hhea), Some(maxp), Some(hmtx), Some(cm)) => {
            let h = head.0 as int;
            let hh = hhea.0 as int;
            match (be16(d, h + 18), be16(d, h + 36), be16(d, h + 38), be16(d, h + 40), be16(d, h + 42)) {
                (Some(upem), Some(b0), Some(b1), Some(b2), Some(b3)) => match (be16(d, hh + 4), be16(d, hh + 6), be16(d, hh + 34), be16(d, (maxp.0 + 4) as int)) {
                    (Some(asc), Some(desc), Some(nh), Some(ng)) => match (widths_of(d, hmtx.0, nh), cap_of(d, t, signed(asc)), cmap_spec(d, cm.0)) {
                        (Some(w), Some(cap), Some(c)) => Some(FontView {
                            bytes: d,
                            units_per_em: upem as u16,
                            widths: w,
                            cmap: c,
                            ascent: signed(asc) as i16,
                            descent: signed(desc) as i16,
                            cap_height: cap as i16,
                            bbox: seq![signed(b0) as i16, signed(b1) as i16, signed(b2) as i16, signed(b3) as i16],
                            num_glyphs: ng as u16,
                        }),
                        _ => None,
                    },
                    _ => None,
                },
                _ => None,
            }
        },
        _ => None,
    }
}

/// The font that the bytes hold, or `None` when a table it needs is missing
/// or a field lies outside the bytes.
pub open spec fn font_spec(d: Seq<u8>) -> Option<FontView> {
    match be16(d, 4) {
        None => None,
        Some(n) => match directory(d, n) {
            None => None,
            Some(t) => font_in(d, t),
        },
    }
}

/// The glyph of character `code`: the first range that holds it counts;
/// 0 (.notdef) when none does.
pub open spec fn glyph_in(c: Seq<(nat, nat, nat)>, code: nat) -> nat
    decreases c.len(),
{
    if c.len() == 0 {
        0
    } else if c[0].0 <= code <= c[0].1 {
        (c[0].2 + (code - c[0].0) as nat % 65536) % 65536
    } else {
        glyph_in(c.drop_first(), code)
    }
}

/// The advance width of a glyph in font units: glyphs past the table take
/// its last width, and an empty table gives 0.
pub open spec fn advance_in(w: Seq<u16>, glyph: nat) -> u16 {
    if glyph < w.len() {
        w[glyph as int]
    } else if w.len() > 0 {
        w.last()
    } else {
        0
    }
}

/// The advance widths of the hmtx table.
fn read_widths(d: &[u8], hmtx: u64, n: u16) -> (r: Option<Vec<u16>>)
    requires
        hmtx < 0x1_0000_0000,
    ensures
        match widths_of(d@, hmtx as nat, n as nat) {
            None => r is None,
            Some(w) => r matches Some(v) && v@ == w,
        },
{
    let mut out: Vec<u16> = Vec::new();
    let mut i: u16 = 0;
    while i < n
        invariant
            i <= n,
            hmtx < 0x1_0000_0000,
            widths_of(d@, hmtx as nat, i as nat) == Some(out@),
        decreases n - i,
    {
        match read16(d, hmtx + 4 * i as u64) {
            Some(v) => out.push(v),
            None => {
                proof {
                    lemma_widths_stay_none(d@, hmtx as nat, (i + 1) as nat, n as nat);
                }
                return None;
            },
        }
        i += 1;
    }
    Some(out)
}

proof fn lemma_widths_stay_none(d: Seq<u8>, hmtx: nat, i: nat, n: nat)
    requires
        widths_of(d, hmtx, i) is None,
        i <= n,
    ensures
        widths_of(d, hmtx, n) is None,
    decreases n - i,
{
    if i < n {
        lemma_widths_stay_none(d, hmtx, i + 1, n);
    }
}

/// The guessed height of capitals.
fn guess_cap(ascent: i16) -> (r: i16)
    ensures
        r == cap_guess(ascent as int),
{
    if ascent >= 0 {
        (ascent as u32 * 18 / 25) as i16
    } else {
        let m = (0 - ascent as i32) as u32;
        (0 - (m * 18 / 25) as i32) as i16
    }
}

/// The height of capitals, from the OS/2 table where it has one.
fn read_cap(d: &[u8], t: &Vec<([u8; 4], u32, u32)>, ascent: i16) -> (r: Option<i16>)
    ensures
        match cap_of(d@, dir_view(t@), ascent as int) {
            None => r is None,
            Some(c) => r == Some(c as i16),
        },
{
    let tag: [u8; 4] = [79, 83, 47, 50];
    proof {
        assert(tag@ =~= tag_os2());
    }
    match find_table(t, tag) {
        Some((os2, len)) => {
            if len >= 90 {
                let version = read16(d, os2 as u64)?;
                if version >= 2 {
                    let v = as_i16(read16(d, os2 as u64 + 88)?);
                    if v > 0 {
                        return Some(v);
                    }
                }
            }
            Some(guess_cap(ascent))
        },
        None => Some(guess_cap(ascent)),
    }
}

/// A TrueType font: its bytes and what a PDF needs of it.
pub struct Font {
    data: &'static [u8],
    pub units_per_em: u16,
    /// Advance widths in font units; the last one stands for the glyphs past the table.
    widths: Vec<u16>,
    /// First character, last character, glyph of the first.
    cmap: Vec<(u32, u32, u16)>,
    pub ascent: i16,
    pub descent: i16,
    pub cap_height: i16,
    pub bbox: [i16; 4],
    pub num_glyphs: u16,
}

impl View for Font {
    type V = FontView;

    open spec fn view(&self) -> FontView {
        self.model()
    }
}

impl Font {
    pub closed spec fn model(&self) -> FontView {
        FontView {
            bytes: self.data@,
            units_per_em: self.units_per_em,
            widths: self.widths@,
            cmap: ranges_view(self.cmap@),
            ascent: self.ascent,
            descent: self.descent,
            cap_height: self.cap_height,
            bbox: self.bbox@,
            num_glyphs: self.num_glyphs,
        }
    }

    /// Reads a font; `None` when a table it needs is missing or a field
    /// lies outside the bytes.
    #[verifier::spinoff_prover]
    #[verifier::rlimit(60)]
    pub fn parse(data: &'static [u8]) -> (r: Option<Font>)
        ensures
            match font_spec(data@) {
                None => r is None,
                Some(f) => r matches Some(font) && font@ == f,
            },
    {
        let t = read_directory(data)?;
        let ghost tv = dir_view(t@);
        let th: [u8; 4] = [104, 101, 97, 100];
        let tj: [u8; 4] = [104, 104, 101, 97];
        let tm: [u8; 4] = [109, 97, 120, 112];
        let tx: [u8; 4] = [104, 109, 116, 120];
        let tc: [u8; 4] = [99, 109, 97, 112];
        proof {
            assert(th@ =~= tag_head());
            assert(tj@ =~= tag_hhea());
            assert(tm@ =~= tag_maxp());
            assert(tx@ =~= tag_hmtx());
            assert(tc@ =~= tag_cmap());
        }
        let (head, _) = find_table(&t, th)?;
        let (hhea, _) = find_table(&t, tj)?;
        let (maxp, _) = find_table(&t, tm)?;
        let (hmtx, _) = find_table(&t, tx)?;
        let (cmap_at, _) = find_table(&t, tc)?;
        let h = head as u64;
        let units_per_em = read16(data, h + 18)?;
        let b0 = read16(data, h + 36)?;
        let b1 = read16(data, h + 38)?;
        let b2 = read16(data, h + 40)?;
        let b3 = read16(data, h + 42)?;
        let hh = hhea as u64;
        let asc = read16(data, hh + 4)?;
        let desc = read16(data, hh + 6)?;
        let num_h_metrics = read16(data, hh + 34)?;
        let num_glyphs = read16(data, maxp as u64 + 4)?;
        let widths = read_widths(data, hmtx as u64, num_h_metrics)?;
        let ascent = as_i16(asc);
        let cap_height = read_cap(data, &t, ascent)?;
        let cmap = read_cmap(data, cmap_at as u64)?;
        let bbox = [as_i16(b0), as_i16(b1), as_i16(b2), as_i16(b3)];
        let font = Font {
            data,
            units_per_em,
            widths,
            cmap,
            ascent,
            descent: as_i16(desc),
            cap_height,
            bbox,
            num_glyphs,
        };
        proof {
            assert(bbox@ =~= seq![bbox[0], bbox[1], bbox[2], bbox[3]]);
        }
        Some(font)
    }

    /// The bytes the font was read from.
    pub fn bytes(&self) -> (r: &'static [u8])
        ensures
            r@ == self@.bytes,
    {
        self.data
    }

    /// The glyph of a character; 0 (.notdef) when the font has none.
    pub fn glyph(&self, ch: char) -> (r: u16)
        ensures
            r == glyph_in(self@.cmap, ch as nat),
    {
        self.glyph_of_code(ch as u32)
    }

    /// The glyph of a code point.
    pub fn glyph_of_code(&self, code: u32) -> (r: u16)
        ensures
            r == glyph_in(self@.cmap, code as nat),
    {
        let ghost c = ranges_view(self.cmap@);
        let mut i: usize = 0;
        proof {
            assert(c.skip(0) =~= c);
        }
        while i < self.cmap.len()
            invariant
                i <= self.cmap.len(),
                c == ranges_view(self.cmap@),
                glyph_in(c, code as nat) == glyph_in(c.skip(i as int), code as nat),
            decreases self.cmap.len() - i,
        {
            let (start, end, first) = self.cmap[i];
            proof {
                assert(c.skip(i as int)[0] == (start as nat, end as nat, first as nat));
                assert(c.skip(i as int).drop_first() =~= c.skip(i + 1));
            }
            if code >= start && code <= end {
                return ((first as u32 + (code - start) % 65536) % 65536) as u16;
            }
            i += 1;
        }
        0
    }

    /// The advance width of a glyph in font units.
    pub fn raw_advance(&self, glyph: u16) -> (r: u16)
        ensures
            r == advance_in(self@.widths, glyph as nat),
    {
        let n = self.widths.len();
        if (glyph as usize) < n {
            self.widths[glyph as usize]
        } else if n > 0 {
            self.widths[n - 1]
        } else {
            0
        }
    }
}

} // verus!
