//! The file around the objects of a PDF: the header, the numbered objects,
//! the cross-reference table with the place of each object, and the trailer.

use vstd::prelude::*;
use vstd::utf8::encode_utf8;
use crate::bytes::push_bytes;
use crate::numbers::{digits_of, push_digits};
use crate::text::{append, chars_of, string_of};

verus! {

/// The bytes of a text.
pub open spec fn utf8(s: Seq<char>) -> Seq<u8> {
    encode_utf8(s)
}

/// The first line, then a comment of four high bytes that marks the file
/// as binary.
pub open spec fn header() -> Seq<u8> {
    seq![37u8, 80u8, 68u8, 70u8, 45u8, 49u8, 46u8, 55u8, 10u8, 37u8, 0xE2u8, 0xE3u8, 0xCFu8, 0xD3u8, 10u8]
}

/// Object `id`: its number line, the body, its end.
pub open spec fn object_bytes(id: nat, body: Seq<u8>) -> Seq<u8> {
    utf8(digits_of(id) + " 0 obj\n"@) + body + utf8("\nendobj\n"@)
}

/// The first `k` objects, numbered from 1.
pub open spec fn objects(bodies: Seq<Seq<u8>>, k: nat) -> Seq<u8>
    decreases k,
{
    if k == 0 {
        Seq::empty()
    } else {
        objects(bodies, (k - 1) as nat) + object_bytes(k, bodies[k - 1])
    }
}

/// Where each of the first `k` objects begins in the file.
pub open spec fn offsets_spec(bodies: Seq<Seq<u8>>, k: nat) -> Seq<nat> {
    Seq::new(k, |i: int| header().len() + objects(bodies, i as nat).len())
}

/// A number in ten digits, zeros in front, as `{:010}` writes it.
pub open spec fn pad10(v: nat) -> Seq<char> {
    let d = digits_of(v);
    if d.len() >= 10 {
        d
    } else {
        Seq::new((10 - d.len()) as nat, |i: int| '0') + d
    }
}

/// The lines of the cross-reference table, one per offset.
pub open spec fn xref_lines(offs: Seq<nat>) -> Seq<u8>
    decreases offs.len(),
{
    if offs.len() == 0 {
        Seq::empty()
    } else {
        xref_lines(offs.drop_last()) + utf8(pad10(offs.last()) + " 00000 n \n"@)
    }
}

/// The trailer: the table's size, the root and info objects, and where the
/// table begins.
pub open spec fn trailer_text(size: nat, root: nat, info: nat, xref_at: nat) -> Seq<char> {
    "trailer\n<< /Size "@ + digits_of(size) + " /Root "@ + digits_of(root) + " 0 R /Info "@ + digits_of(info)
        + " 0 R >>\nstartxref\n"@ + digits_of(xref_at) + "\n%%EOF\n"@
}

/// A PDF file of the given object bodies, numbered from 1, with its root
/// and info objects.
pub open spec fn file_spec(bodies: Seq<Seq<u8>>, root: nat, info: nat) -> Seq<u8> {
    let n = bodies.len();
    let front = header() + objects(bodies, n);
    front + utf8("xref\n0 "@ + digits_of(n + 1) + "\n"@) + utf8("0000000000 65535 f \n"@) + xref_lines(
        offsets_spec(bodies, n),
    ) + utf8(trailer_text(n + 1, root, info, front.len()))
}

/// Appends the bytes of a text.
pub fn push_text(out: &mut Vec<u8>, t: &[char])
    ensures
        final(out)@ == old(out)@ + utf8(t@),
{
    let s = string_of(t);
    push_bytes(out, s.as_str().as_bytes());
}

/// Appends the bytes of a literal.
pub fn push_str(out: &mut Vec<u8>, t: &str)
    ensures
        final(out)@ == old(out)@ + utf8(t@),
{
    push_bytes(out, t.as_bytes());
}

fn pad10_chars(v: u64) -> (r: Vec<char>)
    ensures
        r@ == pad10(v as nat),
{
    let mut d: Vec<char> = Vec::new();
    push_digits(v, &mut d);
    proof {
        assert(d@ =~= digits_of(v as nat));
    }
    if d.len() >= 10 {
        return d;
    }
    let mut r: Vec<char> = Vec::new();
    let zeros = 10 - d.len();
    let mut i: usize = 0;
    while i < zeros
        invariant
            i <= zeros,
            r@ == Seq::new(i as nat, |k: int| '0'),
        decreases zeros - i,
    {
        r.push('0');
        proof {
            assert(r@ =~= Seq::new((i + 1) as nat, |k: int| '0'));
        }
        i += 1;
    }
    append(&mut r, &d);
    r
}

/// Writes a PDF file of the given object bodies, numbered from 1, with its
/// root and info objects.
pub fn write_file(bodies: &Vec<Vec<u8>>, root: u64, info: u64) -> (r: Vec<u8>)
    requires
        bodies@.len() < u64::MAX,
    ensures
        r@ == file_spec(bodies@.map_values(|b: Vec<u8>| b@), root as nat, info as nat),
{
    let ghost bs = bodies@.map_values(|b: Vec<u8>| b@);
    let mut out: Vec<u8> = Vec::new();
    push_bytes(&mut out, &[37u8, 80, 68, 70, 45, 49, 46, 55, 10, 37, 0xE2, 0xE3, 0xCF, 0xD3, 10]);
    proof {
        assert(out@ =~= header());
    }
    let mut offsets: Vec<u64> = Vec::new();
    let mut k: usize = 0;
    while k < bodies.len()
        invariant
            k <= bodies@.len(),
            bs == bodies@.map_values(|b: Vec<u8>| b@),
            bodies@.len() < u64::MAX,
            out@ == header() + objects(bs, k as nat),
            offsets@.len() == k,
            forall|i: int| 0 <= i < k ==> offsets@[i] as nat == #[trigger] offsets_spec(bs, k as nat)[i],
        decreases bodies.len() - k,
    {
        let ghost before = out@;
        offsets.push(out.len() as u64);
        let mut head: Vec<char> = Vec::new();
        push_digits(k as u64 + 1, &mut head);
        append(&mut head, &chars_of(" 0 obj\n"));
        push_text(&mut out, &head);
        push_bytes(&mut out, &bodies[k]);
        push_str(&mut out, "\nendobj\n");
        proof {
            assert(head@ =~= digits_of((k + 1) as nat) + " 0 obj\n"@);
            assert(bs[k as int] == bodies@[k as int]@);
            assert(out@ =~= before + object_bytes((k + 1) as nat, bs[k as int]));
            assert(objects(bs, (k + 1) as nat) == objects(bs, k as nat) + object_bytes((k + 1) as nat, bs[k as int]));
            assert forall|i: int| 0 <= i < k + 1 implies offsets@[i] as nat == #[trigger] offsets_spec(
                bs,
                (k + 1) as nat,
            )[i] by {
                if i < k {
                    assert(offsets_spec(bs, (k + 1) as nat)[i] == offsets_spec(bs, k as nat)[i]);
                }
            }
        }
        k += 1;
    }
    let front_len = out.len() as u64;
    let n = bodies.len() as u64;
    let mut line: Vec<char> = chars_of("xref\n0 ");
    push_digits(n + 1, &mut line);
    append(&mut line, &chars_of("\n"));
    push_text(&mut out, &line);
    push_str(&mut out, "0000000000 65535 f \n");
    let ghost table_at = out@;
    let mut j: usize = 0;
    proof {
        assert(offsets@.map_values(|o: u64| o as nat).take(0) =~= Seq::<nat>::empty());
    }
    while j < offsets.len()
        invariant
            j <= offsets@.len(),
            offsets@.len() == bodies@.len(),
            out@ == table_at + xref_lines(offsets@.map_values(|o: u64| o as nat).take(j as int)),
        decreases offsets.len() - j,
    {
        let ghost before = out@;
        let mut l = pad10_chars(offsets[j]);
        append(&mut l, &chars_of(" 00000 n \n"));
        push_text(&mut out, &l);
        proof {
            let ov = offsets@.map_values(|o: u64| o as nat);
            assert(ov.take(j + 1).drop_last() =~= ov.take(j as int));
            assert(ov.take(j + 1).last() == offsets@[j as int] as nat);
            assert(l@ =~= pad10(offsets@[j as int] as nat) + " 00000 n \n"@);
        }
        j += 1;
    }
    let mut t: Vec<char> = chars_of("trailer\n<< /Size ");
    push_digits(n + 1, &mut t);
    append(&mut t, &chars_of(" /Root "));
    push_digits(root, &mut t);
    append(&mut t, &chars_of(" 0 R /Info "));
    push_digits(info, &mut t);
    append(&mut t, &chars_of(" 0 R >>\nstartxref\n"));
    push_digits(front_len, &mut t);
    append(&mut t, &chars_of("\n%%EOF\n"));
    push_text(&mut out, &t);
    proof {
        let n_ = bodies@.len() as nat;
        assert(offsets@.map_values(|o: u64| o as nat).take(offsets@.len() as int) =~= offsets_spec(bs, n_));
        assert(line@ =~= "xref\n0 "@ + digits_of(n_ + 1) + "\n"@);
        assert(t@ =~= trailer_text(n_ + 1, root as nat, info as nat, front_len as nat));
        assert(bs.len() == n_);
        assert(out@ =~= file_spec(bs, root as nat, info as nat));
    }
    out
}

/// The first objects are a prefix of more objects.
proof fn lemma_objects_prefix(bodies: Seq<Seq<u8>>, j: nat, k: nat)
    requires
        j <= k,
    ensures
        objects(bodies, j).len() <= objects(bodies, k).len(),
        objects(bodies, k).subrange(0, objects(bodies, j).len() as int) == objects(bodies, j),
    decreases k,
{
    if j < k {
        lemma_objects_prefix(bodies, j, (k - 1) as nat);
        let a = objects(bodies, (k - 1) as nat);
        let b = object_bytes(k, bodies[k - 1]);
        assert((a + b).subrange(0, objects(bodies, j).len() as int) =~= a.subrange(0, objects(bodies, j).len() as int));
    } else {
        assert(objects(bodies, k).subrange(0, objects(bodies, k).len() as int) =~= objects(bodies, k));
    }
}

/// The cross-reference table is right: the place it gives for each object
/// is where that object's number line stands in the file.
pub proof fn law_xref_points_at_objects(bodies: Seq<Seq<u8>>, root: nat, info: nat, i: int)
    requires
        0 <= i < bodies.len(),
    ensures
        ({
            let f = file_spec(bodies, root, info);
            let at = offsets_spec(bodies, bodies.len())[i] as int;
            let line = utf8(digits_of((i + 1) as nat) + " 0 obj\n"@);
            at + line.len() <= f.len() && f.subrange(at, at + line.len()) == line
        }),
{
    let n = bodies.len();
    let f = file_spec(bodies, root, info);
    let line = utf8(digits_of((i + 1) as nat) + " 0 obj\n"@);
    let before = objects(bodies, i as nat);
    let upto = objects(bodies, (i + 1) as nat);
    let obj = object_bytes((i + 1) as nat, bodies[i]);
    lemma_objects_prefix(bodies, (i + 1) as nat, n);
    assert(upto == before + obj);
    let at: int = (header().len() + before.len()) as int;
    assert(offsets_spec(bodies, n)[i] == at);
    let all = objects(bodies, n);
    let front = header() + all;
    assert(obj.subrange(0, line.len() as int) =~= line);
    assert(all.subrange(0, upto.len() as int) == upto);
    assert forall|k: int| 0 <= k < line.len() implies #[trigger] f[at + k] == line[k] by {
        assert(f[at + k] == front[at + k]);
        assert(front[at + k] == all[before.len() + k]);
        assert(all[before.len() + k] == upto[before.len() + k]);
        assert(upto[before.len() + k] == obj[k]);
    }
    assert(obj.len() >= line.len());
    assert(front.len() >= at + obj.len());
    assert(f.len() >= front.len());
    let piece = f.subrange(at, at + line.len());
    assert forall|k: int| 0 <= k < line.len() implies #[trigger] piece[k] == line[k] by {
        assert(piece[k] == f[at + k]);
    }
    assert(piece =~= line);
}

} // verus!
