//! Streaming sample-rate conversion, as integer bookkeeping: which input
//! samples each output sample is made of, chunk after chunk, with the tail
//! that the next window still needs kept between calls. Positions are kept as
//! exact fractions `pos / dst` in integers, so an hour of audio does not drift.
//! The samples themselves (and the averaging) live with the caller.

use vstd::prelude::*;
use vstd::arithmetic::div_mod::{lemma_div_is_ordered, lemma_div_plus_one};

verus! {

/// Whether output `k` can be made once `total` input samples have arrived.
/// Going down (`src > dst`), output `k` is the mean of the inputs
/// `k*src/dst .. (k+1)*src/dst`; going up, it blends input `k*src/dst` with
/// the one after it, so that one must have arrived too.
pub open spec fn ready(src: nat, dst: nat, k: nat, total: nat) -> bool {
    if src > dst {
        ((k + 1) * src) / dst <= total
    } else {
        (k * src) / dst + 1 < total
    }
}

/// `made` is exactly the number of outputs that `total` inputs allow: every
/// earlier output is ready and this one is not.
pub open spec fn settled(src: nat, dst: nat, total: nat, made: nat) -> bool {
    &&& forall|k: nat| k < made ==> #[trigger] ready(src, dst, k, total)
    &&& !ready(src, dst, made, total)
}

/// Output `k` in stream coordinates: going down, the input range
/// `(first, end)`; going up, the left input and the numerator of the weight of
/// the right one (over `dst`).
pub open spec fn window(src: nat, dst: nat, k: nat) -> (nat, nat) {
    if src > dst {
        ((k * src) / dst, ((k + 1) * src) / dst)
    } else {
        ((k * src) / dst, (k * src) % dst)
    }
}

/// Outputs `lo .. hi` in stream coordinates.
pub open spec fn windows(src: nat, dst: nat, lo: nat, hi: nat) -> Seq<(nat, nat)> {
    Seq::new((hi - lo) as nat, |j: int| window(src, dst, (lo + j) as nat))
}

/// One output sample, in positions of the caller's buffer.
#[derive(Clone, Copy, Debug, PartialEq, Eq)]
pub enum Step {
    /// The mean of `buffer[from..to]`.
    Mean { from: usize, to: usize },
    /// `buffer[at] * (1 - num/den) + buffer[at + 1] * num/den`.
    Blend { at: usize, num: u64, den: u64 },
}

/// `step` is output window `w` once `base` inputs have left the buffer, and
/// it only reads the first `len` buffered samples.
pub open spec fn step_is(step: Step, src: nat, dst: nat, w: (nat, nat), base: nat, len: nat) -> bool {
    if src > dst {
        match step {
            Step::Mean { from, to } => from + base == w.0 && to + base == w.1 && from < to <= len,
            Step::Blend { .. } => false,
        }
    } else {
        match step {
            Step::Blend { at, num, den } => at + base == w.0 && num == w.1 && den == dst && at + 1 < len,
            Step::Mean { .. } => false,
        }
    }
}

/// What one call of [`Downsampler::feed`] asks of the caller: with `copy`, the
/// input goes straight to the output; otherwise the input is appended to the
/// buffer, each step makes one output sample, and then the first `drain`
/// samples of the buffer are dropped.
#[derive(Debug)]
pub struct Feed {
    pub copy: bool,
    pub steps: Vec<Step>,
    pub drain: usize,
}

/// The state of a converter: its two rates, how many outputs it has made, how
/// many inputs have left the buffer and how many are still kept.
pub struct DownsamplerView {
    pub src: nat,
    pub dst: nat,
    pub made: nat,
    pub dropped: nat,
    pub kept: nat,
}

/// A converter that copies (equal rates) or has a rate of zero never
/// holds anything; any other has made exactly the outputs that its inputs
/// allow and has let go of every input before the next window.
pub open spec fn valid(v: DownsamplerView) -> bool {
    if v.src == v.dst || v.src == 0 || v.dst == 0 {
        v.made == 0 && v.dropped == 0 && v.kept == 0
    } else {
        &&& v.dropped == (v.made * v.src) / v.dst
        &&& settled(v.src, v.dst, v.dropped + v.kept, v.made)
    }
}

/// Feeding `n` more samples is possible (two non-zero rates, or equal ones) and keeps every position within `u64` and the buffer
/// within `usize`.
pub open spec fn room(v: DownsamplerView, n: nat) -> bool {
    v.src == v.dst || (v.src > 0 && v.dst > 0 && (v.dropped + v.kept + n + 1) * v.dst + v.src
        <= u64::MAX && v.kept + n <= usize::MAX)
}

/// Streaming converter from `src` to `dst` samples per second.
pub struct Downsampler {
    src: u64,
    dst: u64,
    /// Position in input samples, times `dst`.
    pos: u64,
    /// Input samples already dropped from the buffer.
    dropped: u64,
    /// Input samples still in the buffer.
    buffered: usize,
    made: Ghost<nat>,
}

impl View for Downsampler {
    type V = DownsamplerView;

    open spec fn view(&self) -> DownsamplerView {
        self.model()
    }
}

/// `x / d <= a` puts `x` below `(a + 1) * d`.
proof fn lemma_below(x: int, d: int, a: int)
    by (nonlinear_arith)
    requires
        d > 0,
        x >= 0,
        x / d <= a,
    ensures
        x < (a + 1) * d,
{
}

impl Downsampler {
    pub closed spec fn model(&self) -> DownsamplerView {
        DownsamplerView {
            src: self.src as nat,
            dst: self.dst as nat,
            made: self.made@,
            dropped: self.dropped as nat,
            kept: self.buffered as nat,
        }
    }

    pub closed spec fn wf(&self) -> bool {
        &&& valid(self@)
        &&& self.pos == self.made@ * self.src
        &&& (self.src == self.dst || self.src == 0 || self.dst == 0) ==> self.pos == 0
        &&& self.dropped + self.buffered <= u64::MAX
    }

    /// A converter that has seen nothing yet.
    pub fn new(src: usize, dst: usize) -> (r: Downsampler)
        ensures
            r.wf(),
            r@ == (DownsamplerView { src: src as nat, dst: dst as nat, made: 0, dropped: 0, kept: 0 }),
    {
        let r = Downsampler {
            src: src as u64,
            dst: dst as u64,
            pos: 0,
            dropped: 0,
            buffered: 0,
            made: Ghost(0),
        };
        proof {
            if src != dst && src != 0 && dst != 0 {
                assert((0 * src) as int / dst as int == 0) by (nonlinear_arith)
                    requires dst > 0;
                if src > dst {
                    assert((1 * src) as int / dst as int >= 1) by (nonlinear_arith)
                        requires src > dst, dst > 0;
                }
            }
        }
        r
    }

    /// Whether `n` more samples can be fed without leaving `u64` or `usize`.
    pub fn has_room(&self, n: usize) -> (r: bool)
        requires
            self.wf(),
        ensures
            r == room(self@, n as nat),
    {
        if self.src == self.dst {
            return true;
        }
        if self.src == 0 || self.dst == 0 {
            return false;
        }
        let kept = self.buffered.checked_add(n);
        if kept.is_none() {
            return false;
        }
        let held = self.dropped.checked_add(self.buffered as u64);
        let held = match held {
            Some(h) => h.checked_add(n as u64),
            None => None,
        };
        let held = match held {
            Some(h) => h.checked_add(1),
            None => None,
        };
        let scaled = match held {
            Some(h) => h.checked_mul(self.dst),
            None => None,
        };
        let end = match scaled {
            Some(s) => s.checked_add(self.src),
            None => None,
        };
        proof {
            let t = self.dropped + self.buffered + n + 1;
            assert(t * self.dst >= t) by (nonlinear_arith)
                requires t >= 0, self.dst > 0;
            if scaled.is_none() && held.is_some() {
                assert(held.unwrap() == t);
            }
        }
        end.is_some()
    }

    /// Takes `n` more input samples and says which output samples they make
    /// and how many samples the buffer can let go of.
    pub fn feed(&mut self, n: usize) -> (r: Feed)
        requires
            old(self).wf(),
            room(old(self)@, n as nat),
        ensures
            final(self).wf(),
            final(self)@.src == old(self)@.src,
            final(self)@.dst == old(self)@.dst,
            r.copy == (old(self)@.src == old(self)@.dst),
            r.copy ==> final(self)@ == old(self)@ && r.steps@.len() == 0 && r.drain == 0,
            !r.copy ==> {
                &&& final(self)@.dropped + final(self)@.kept == old(self)@.dropped + old(self)@.kept + n
                &&& r.steps@.len() == final(self)@.made - old(self)@.made
                &&& forall|j: int|
                    0 <= j < r.steps@.len() ==> step_is(
                        #[trigger] r.steps@[j],
                        old(self)@.src,
                        old(self)@.dst,
                        window(old(self)@.src, old(self)@.dst, (old(self)@.made + j) as nat),
                        old(self)@.dropped,
                        old(self)@.kept + n as nat,
                    )
                &&& r.drain == final(self)@.dropped - old(self)@.dropped
            },
    {
        if self.src == self.dst {
            return Feed { copy: true, steps: Vec::new(), drain: 0 };
        }
        let src = self.src;
        let dst = self.dst;
        let d0 = self.dropped;
        let len = self.buffered + n;
        proof {
            let t = d0 + len;
            assert(t <= u64::MAX) by (nonlinear_arith)
                requires (t + 1) * dst + src <= u64::MAX, dst > 0;
        }
        let avail: u64 = d0 + len as u64;
        let ghost m0: nat = self.made@;
        let ghost t0: nat = (self.dropped + self.buffered) as nat;
        let ghost mut made: nat = m0;
        let mut pos = self.pos;
        let mut steps: Vec<Step> = Vec::new();
        proof {
            assert forall|k: nat| k < made implies #[trigger] ready(src as nat, dst as nat, k, avail as nat) by {
                assert(ready(src as nat, dst as nat, k, t0));
            }
            lemma_below(pos as int, dst as int, avail as int);
            assert((avail + 1) * dst <= (d0 + self.buffered + n + 1) * dst);
            assert(avail < u64::MAX) by (nonlinear_arith)
                requires (avail + 1) * dst + src <= u64::MAX, dst > 0;
        }
        if src > dst {
            while (pos + src) / dst <= avail
                invariant
                    src > dst > 0,
                    pos == made * src,
                    m0 <= made,
                    d0 == (m0 * src) / (dst as int),
                    d0 + len == avail,
                    (avail + 1) * dst + src <= u64::MAX,
                    pos / dst <= avail,
                    pos < (avail + 1) * dst,
                    avail < u64::MAX,
                    forall|k: nat| k < made ==> #[trigger] ready(src as nat, dst as nat, k, avail as nat),
                    steps@.len() == made - m0,
                    forall|j: int|
                        0 <= j < steps@.len() ==> step_is(
                            #[trigger] steps@[j],
                            src as nat,
                            dst as nat,
                            window(src as nat, dst as nat, (m0 + j) as nat),
                            d0 as nat,
                            len as nat,
                        ),
                decreases (avail + 1) * dst - pos,
            {
                proof {
                    lemma_below(pos as int, dst as int, avail as int);
                    assert((made + 1) * src == made * src + src) by (nonlinear_arith);
                    assert(m0 * src <= made * src) by (nonlinear_arith)
                        requires m0 <= made;
                    lemma_div_is_ordered((m0 * src) as int, pos as int, dst as int);
                    lemma_div_is_ordered(pos + dst, pos + src, dst as int);
                    lemma_div_plus_one(pos as int, dst as int);
                }
                let from = pos / dst - d0;
                let to = (pos + src) / dst - d0;
                steps.push(Step::Mean { from: from as usize, to: to as usize });
                proof {
                    assert(ready(src as nat, dst as nat, made, avail as nat));
                    made = made + 1;
                }
                pos = pos + src;
                proof {
                    lemma_below(pos as int, dst as int, avail as int);
                    assert forall|j: int| 0 <= j < steps@.len() implies step_is(
                        #[trigger] steps@[j],
                        src as nat,
                        dst as nat,
                        window(src as nat, dst as nat, (m0 + j) as nat),
                        d0 as nat,
                        len as nat,
                    ) by {
                        if j == steps@.len() - 1 {
                            assert((m0 + j) as nat == (made - 1) as nat);
                        }
                    }
                }
            }
            proof {
                assert((made + 1) * src == made * src + src) by (nonlinear_arith);
            }
        } else {
            while pos / dst + 1 < avail
                invariant
                    0 < src < dst,
                    pos == made * src,
                    m0 <= made,
                    d0 == (m0 * src) / (dst as int),
                    d0 + len == avail,
                    (avail + 1) * dst + src <= u64::MAX,
                    pos / dst <= avail,
                    pos < (avail + 1) * dst,
                    avail < u64::MAX,
                    forall|k: nat| k < made ==> #[trigger] ready(src as nat, dst as nat, k, avail as nat),
                    steps@.len() == made - m0,
                    forall|j: int|
                        0 <= j < steps@.len() ==> step_is(
                            #[trigger] steps@[j],
                            src as nat,
                            dst as nat,
                            window(src as nat, dst as nat, (m0 + j) as nat),
                            d0 as nat,
                            len as nat,
                        ),
                decreases (avail + 1) * dst - pos,
            {
                proof {
                    lemma_below(pos as int, dst as int, avail as int);
                    assert((made + 1) * src == made * src + src) by (nonlinear_arith);
                    assert(m0 * src <= made * src) by (nonlinear_arith)
                        requires m0 <= made;
                    lemma_div_is_ordered((m0 * src) as int, pos as int, dst as int);
                    lemma_div_is_ordered(pos + src, pos + dst, dst as int);
                    lemma_div_plus_one(pos as int, dst as int);
                }
                let at = pos / dst - d0;
                let num = pos % dst;
                steps.push(Step::Blend { at: at as usize, num, den: dst });
                proof {
                    assert(ready(src as nat, dst as nat, made, avail as nat));
                    made = made + 1;
                }
                pos = pos + src;
                proof {
                    lemma_below(pos as int, dst as int, avail as int);
                    assert forall|j: int| 0 <= j < steps@.len() implies step_is(
                        #[trigger] steps@[j],
                        src as nat,
                        dst as nat,
                        window(src as nat, dst as nat, (m0 + j) as nat),
                        d0 as nat,
                        len as nat,
                    ) by {
                        if j == steps@.len() - 1 {
                            assert((m0 + j) as nat == (made - 1) as nat);
                        }
                    }
                }
            }
        }
        let keep_from = pos / dst;
        proof {
            assert(m0 * src <= made * src) by (nonlinear_arith)
                requires m0 <= made;
            lemma_div_is_ordered((m0 * src) as int, pos as int, dst as int);
        }
        let used = keep_from - d0;
        self.pos = pos;
        self.dropped = keep_from;
        self.buffered = len - used as usize;
        self.made = Ghost(made);
        Feed { copy: false, steps, drain: used as usize }
    }
}

/// Feeding a stream in pieces makes the same outputs, in the same order, and
/// leaves the converter in the same state as feeding it all at once: `s1` is
/// `s0` after `a` more samples, `s2` is `s1` after `b` more, and `s` is `s0`
/// after `a + b`.
pub proof fn law_pieces_match_whole(
    s0: DownsamplerView,
    s1: DownsamplerView,
    s2: DownsamplerView,
    s: DownsamplerView,
    a: nat,
    b: nat,
)
    requires
        valid(s0),
        valid(s1),
        valid(s2),
        valid(s),
        s1.src == s0.src && s2.src == s0.src && s.src == s0.src,
        s1.dst == s0.dst && s2.dst == s0.dst && s.dst == s0.dst,
        s1.dropped + s1.kept == s0.dropped + s0.kept + a,
        s2.dropped + s2.kept == s1.dropped + s1.kept + b,
        s.dropped + s.kept == s0.dropped + s0.kept + a + b,
    ensures
        s2 == s,
        s0.made <= s1.made <= s2.made,
        windows(s0.src, s0.dst, s0.made, s1.made) + windows(s0.src, s0.dst, s1.made, s2.made)
            == windows(s0.src, s0.dst, s0.made, s.made),
{
    let src = s0.src;
    let dst = s0.dst;
    if !(src == dst || src == 0 || dst == 0) {
        let t0 = s0.dropped + s0.kept;
        let t1 = s1.dropped + s1.kept;
        let t2 = s2.dropped + s2.kept;
        if s1.made < s0.made {
            assert(ready(src, dst, s1.made, t0));
        }
        if s2.made < s1.made {
            assert(ready(src, dst, s2.made, t1));
        }
        if s2.made < s.made {
            assert(ready(src, dst, s2.made, t2));
        }
        if s.made < s2.made {
            assert(ready(src, dst, s.made, t2));
        }
    }
    assert(s2.made == s.made);
    assert(s2 == s);
    assert(windows(src, dst, s0.made, s1.made) + windows(src, dst, s1.made, s2.made) =~= windows(
        src,
        dst,
        s0.made,
        s.made,
    ));
}

} // verus!
