//! Streaming WAV, PCM16 mono at 16 kHz, the format the recogniser expects:
//! the 44-byte header (its sizes are written again when the recording is
//! closed) and, for reading, where the samples begin and how many there are.
//! A header is not taken at its word: one left by a broken recording holds
//! zeros, and other tools put extra chunks before the samples, so the start
//! is found by the `data` chunk and the length by the file's size.

use vstd::prelude::*;
use crate::bytes::{le16, le32, push16, push32, wrap32};

verus! {

/// Samples per second.
pub const SAMPLE_RATE: usize = 16_000;

/// Bytes in the header this writer makes.
pub const HEADER_BYTES: u64 = 44;

/// The tag "RIFF".
pub open spec fn riff() -> Seq<u8> {
    seq![0x52u8, 0x49u8, 0x46u8, 0x46u8]
}

/// The tag "WAVE".
pub open spec fn wave() -> Seq<u8> {
    seq![0x57u8, 0x41u8, 0x56u8, 0x45u8]
}

/// The tag "fmt ".
pub open spec fn fmt_tag() -> Seq<u8> {
    seq![0x66u8, 0x6du8, 0x74u8, 0x20u8]
}

/// The tag "data".
pub open spec fn data_tag() -> Seq<u8> {
    seq![0x64u8, 0x61u8, 0x74u8, 0x61u8]
}

/// The header of a file with `data` bytes of samples: PCM, one channel,
/// 16 kHz, two bytes a sample; sizes as 32-bit fields take them.
pub open spec fn header_spec(data: nat) -> Seq<u8> {
    riff() + le32(wrap32(data + 36int)) + wave() + fmt_tag() + le32(16) + le16(1) + le16(1) + le32(
        16000,
    ) + le32(32000) + le16(2) + le16(16) + data_tag() + le32(wrap32(data as int))
}

fn push_tag(out: &mut Vec<u8>, a: u8, b: u8, c: u8, d: u8)
    ensures
        final(out)@ == old(out)@ + seq![a, b, c, d],
{
    out.push(a);
    out.push(b);
    out.push(c);
    out.push(d);
    proof {
        assert(final(out)@ =~= old(out)@ + seq![a, b, c, d]);
    }
}

/// The header for `data` bytes of samples.
pub fn header(data: u64) -> (r: Vec<u8>)
    ensures
        r@ == header_spec(data as nat),
        r@.len() == HEADER_BYTES,
{
    let mut b: Vec<u8> = Vec::new();
    push_tag(&mut b, 0x52, 0x49, 0x46, 0x46);
    push32(&mut b, ((data as u128 + 36) % 4294967296) as u64);
    push_tag(&mut b, 0x57, 0x41, 0x56, 0x45);
    push_tag(&mut b, 0x66, 0x6d, 0x74, 0x20);
    push32(&mut b, 16);
    push16(&mut b, 1);
    push16(&mut b, 1);
    push32(&mut b, 16000);
    push32(&mut b, 32000);
    push16(&mut b, 2);
    push16(&mut b, 16);
    push_tag(&mut b, 0x64, 0x61, 0x74, 0x61);
    push32(&mut b, data % 4294967296);
    proof {
        assert(b@ =~= header_spec(data as nat));
    }
    b
}

/// A 32-bit field read low byte first.
pub open spec fn le32_at(h: Seq<u8>, i: int) -> nat {
    (h[i] + h[i + 1] * 256 + h[i + 2] * 65536 + h[i + 3] * 16777216) as nat
}

/// Where the samples begin: walking the chunks (a 4-byte id, a 32-bit size,
/// the body) from `off`, just after the `data` chunk's id and size; the usual 44 when the first bytes of the file,
/// `h`, hold no such chunk.
pub open spec fn data_at(h: Seq<u8>, off: nat) -> nat
    decreases (if off <= h.len() { h.len() - off } else { 0 }),
{
    if off + 8 > h.len() {
        44
    } else if h.subrange(off as int, off as int + 4) == data_tag() {
        off + 8
    } else {
        data_at(h, off + 8 + le32_at(h, off + 4int))
    }
}

/// Where the samples begin, from the first bytes of the file: the chunks are
/// walked from just after "RIFF", the size and "WAVE".
pub fn data_offset(head: &[u8]) -> (r: u64)
    ensures
        r == data_at(head@, 12),
{
    let mut off: usize = 12;
    while head.len() >= 8 && off <= head.len() - 8
        invariant
            off >= 12,
            data_at(head@, off as nat) == data_at(head@, 12),
        decreases head.len() - off,
    {
        if head[off] == 0x64 && head[off + 1] == 0x61 && head[off + 2] == 0x74 && head[off + 3] == 0x61 {
            proof {
                assert(head@.subrange(off as int, off + 4) =~= data_tag());
            }
            return off as u64 + 8;
        }
        proof {
            assert(head@.subrange(off as int, off + 4) != data_tag()) by {
                if head@.subrange(off as int, off + 4) == data_tag() {
                    assert(head@.subrange(off as int, off + 4)[0] == head@[off as int]);
                    assert(head@.subrange(off as int, off + 4)[1] == head@[off + 1]);
                    assert(head@.subrange(off as int, off + 4)[2] == head@[off + 2]);
                    assert(head@.subrange(off as int, off + 4)[3] == head@[off + 3]);
                }
            }
        }
        let size: u64 = head[off + 4] as u64 + head[off + 5] as u64 * 256 + head[off + 6] as u64 * 65536
            + head[off + 7] as u64 * 16777216;
        let room = (head.len() - off - 8) as u64;
        if size > room {
            proof {
                let next = off + 8 + le32_at(head@, off + 4);
                assert(data_at(head@, next as nat) == 44);
            }
            return 44;
        }
        off = off + 8 + size as usize;
    }
    44
}

/// Samples in a file of `len` bytes whose samples begin at `offset`.
pub fn sample_count(len: u64, offset: u64) -> (r: u64)
    ensures
        r == (if len >= offset { (len - offset) / 2 } else { 0 }),
{
    if len >= offset {
        (len - offset) / 2
    } else {
        0
    }
}

/// How many of `count` samples from `from` a file of `total` samples has.
pub fn readable(total: u64, from: u64, count: usize) -> (r: u64)
    ensures
        r == (if from >= total { 0 } else if count < total - from { count as int } else { total
            - from }),
{
    let left = if from >= total { 0 } else { total - from };
    if (count as u64) < left {
        count as u64
    } else {
        left
    }
}

/// Whether a recording holds sound worth transcribing: at least half a
/// second of samples. A shorter one is "empty".
pub fn has_sound(total_samples: u64) -> (r: bool)
    ensures
        r == (total_samples >= SAMPLE_RATE / 2),
{
    total_samples >= (SAMPLE_RATE / 2) as u64
}

} // verus!
