//! Splitting long recordings at pauses. The speech recogniser was trained on
//! utterances of up to about 25 seconds, so long audio is cut at silences,
//! not by a timer. The logic works on 20 ms frames: whether each frame holds
//! speech, and an order of the frames by loudness (the caller measures the
//! loudness and the noise floor).

use vstd::prelude::*;

verus! {

/// Milliseconds in one analysis frame.
pub const FRAME_MS: usize = 20;

/// A pause at least this long (ms) is a place to cut.
pub const MIN_PAUSE_MS: usize = 350;

/// A piece is not cut at a pause before it is this long (ms).
pub const MIN_SEGMENT_MS: usize = 4000;

/// A piece is never longer than this (ms): without a pause it is cut at its
/// quietest frame.
pub const MAX_SEGMENT_MS: usize = 24000;

/// Frames in the shortest pause, the shortest piece and the longest piece.
pub const MIN_PAUSE_FRAMES: usize = MIN_PAUSE_MS / FRAME_MS;

pub const MIN_SEGMENT_FRAMES: usize = MIN_SEGMENT_MS / FRAME_MS;

pub const MAX_SEGMENT_FRAMES: usize = MAX_SEGMENT_MS / FRAME_MS;

/// Samples in one 20 ms frame at the given sample rate.
pub fn frame_samples(sample_rate: usize) -> (n: usize)
    requires
        FRAME_MS * sample_rate <= usize::MAX,
    ensures
        n == (FRAME_MS * sample_rate) / 1000,
{
    FRAME_MS * sample_rate / 1000
}

/// The first of the quietest frames in `from .. to` (`from` when the range is
/// empty): a later frame only wins by being strictly quieter.
pub open spec fn first_min(order: Seq<i32>, from: nat, to: nat) -> nat
    decreases to - from,
{
    if to <= from + 1 {
        from
    } else {
        let q = first_min(order, from, (to - 1) as nat);
        if order[to - 1] < order[q as int] {
            (to - 1) as nat
        } else {
            q
        }
    }
}

/// Where the scan of the frames stands: where the current piece began, how
/// many silent frames came last, and the cuts so far.
pub struct CutState {
    pub start: nat,
    pub run: nat,
    pub cuts: Seq<nat>,
}

/// One frame of the scan. A long enough pause in a long enough piece is cut
/// in its middle, so that no phrase loses its edges; a piece that reached
/// the longest length without a pause is cut at its quietest frame after
/// the shortest length.
pub open spec fn cut_step(speech: Seq<bool>, order: Seq<i32>, i: nat, s: CutState) -> CutState {
    let run = if speech[i as int] { 0 } else { s.run + 1 };
    let length = i - s.start;
    if run >= MIN_PAUSE_FRAMES && length >= MIN_SEGMENT_FRAMES {
        let cut = (i - run / 2) as nat;
        CutState { start: cut, run: 0, cuts: s.cuts.push(cut) }
    } else if length >= MAX_SEGMENT_FRAMES {
        let q = first_min(order, (s.start + MIN_SEGMENT_FRAMES) as nat, i);
        CutState { start: q, run: 0, cuts: s.cuts.push(q) }
    } else {
        CutState { start: s.start, run: run, cuts: s.cuts }
    }
}

/// The scan after the first `n` frames.
pub open spec fn cut_scan(speech: Seq<bool>, order: Seq<i32>, n: nat) -> CutState
    decreases n,
{
    if n == 0 {
        CutState { start: 0, run: 0, cuts: Seq::empty() }
    } else {
        cut_step(speech, order, (n - 1) as nat, cut_scan(speech, order, (n - 1) as nat))
    }
}

/// The boundaries of the pieces: 0, the cuts, and the end.
pub open spec fn bounds(cuts: Seq<nat>, end: nat) -> Seq<nat> {
    seq![0nat] + cuts + seq![end]
}

/// Pieces follow one another, none empty and none longer than the longest
/// length.
pub open spec fn pieces_fit(b: Seq<nat>) -> bool {
    forall|k: int| 0 < k < b.len() ==> #[trigger] b[k] > b[k - 1] && b[k] - b[k - 1] <= MAX_SEGMENT_FRAMES
}

proof fn lemma_first_min_in(order: Seq<i32>, from: nat, to: nat)
    requires
        from < to,
    ensures
        from <= first_min(order, from, to) < to,
    decreases to - from,
{
    if to > from + 1 {
        lemma_first_min_in(order, from, (to - 1) as nat);
    }
}

/// What the scan keeps true: the current piece began at the last cut (or at
/// 0), is not longer than the longest length, the cuts so far follow one
/// another at most that far apart.
proof fn lemma_scan_shape(speech: Seq<bool>, order: Seq<i32>, n: nat)
    requires
        n <= speech.len(),
    ensures
        ({
            let s = cut_scan(speech, order, n);
            &&& s.start <= n
            &&& n > 0 ==> s.start < n
            &&& s.run <= n - s.start
            &&& n - s.start <= MAX_SEGMENT_FRAMES
            &&& s.cuts.len() == 0 ==> s.start == 0
            &&& s.cuts.len() > 0 ==> s.cuts.last() == s.start
            &&& pieces_fit(seq![0nat] + s.cuts)
        }),
    decreases n,
{
    if n > 0 {
        let i = (n - 1) as nat;
        lemma_scan_shape(speech, order, i);
        let s = cut_scan(speech, order, i);
        let t = cut_scan(speech, order, n);
        let run = if speech[i as int] { 0 } else { s.run + 1 };
        let length = i - s.start;
        let before = seq![0nat] + s.cuts;
        let after = seq![0nat] + t.cuts;
        assert(before.last() == s.start);
        if run >= MIN_PAUSE_FRAMES && length >= MIN_SEGMENT_FRAMES {
            assert(after =~= before.push((i - run / 2) as nat));
        } else if length >= MAX_SEGMENT_FRAMES {
            lemma_first_min_in(order, (s.start + MIN_SEGMENT_FRAMES) as nat, i);
            assert(after =~= before.push(first_min(order, (s.start + MIN_SEGMENT_FRAMES) as nat, i)));
        } else {
            assert(after =~= before);
        }
    }
}

/// The first of the quietest frames in `from .. to`.
fn quietest(order: &[i32], from: usize, to: usize) -> (q: usize)
    requires
        from < to <= order.len(),
    ensures
        q == first_min(order@, from as nat, to as nat),
{
    let mut best = from;
    let mut j = from + 1;
    while j < to
        invariant
            from < j <= to <= order.len(),
            best == first_min(order@, from as nat, j as nat),
        decreases to - j,
    {
        proof {
            lemma_first_min_in(order@, from as nat, j as nat);
        }
        if order[j] < order[best] {
            best = j;
        }
        j = j + 1;
    }
    best
}

/// The frames at which a recording is cut: `speech` says which frames hold
/// speech, `order` orders the frames by loudness (a smaller number is
/// quieter). The pieces between cuts follow one another and none is longer
/// than the longest length, the last one included.
pub fn cut_frames(speech: &[bool], order: &[i32]) -> (cuts: Vec<usize>)
    requires
        speech.len() == order.len(),
    ensures
        cuts@.map_values(|c: usize| c as nat) == cut_scan(speech@, order@, speech.len() as nat).cuts,
        speech.len() > 0 ==> pieces_fit(bounds(cuts@.map_values(|c: usize| c as nat), speech.len() as nat)),
{
    let min_pause = MIN_PAUSE_FRAMES;
    let min_segment = MIN_SEGMENT_FRAMES;
    let max_segment = MAX_SEGMENT_FRAMES;
    let mut cuts: Vec<usize> = Vec::new();
    let mut start: usize = 0;
    let mut run: usize = 0;
    let mut index: usize = 0;
    while index < speech.len()
        invariant
            speech.len() == order.len(),
            index <= speech.len(),
            min_pause == MIN_PAUSE_FRAMES,
            min_segment == MIN_SEGMENT_FRAMES,
            max_segment == MAX_SEGMENT_FRAMES,
            start as nat == cut_scan(speech@, order@, index as nat).start,
            run as nat == cut_scan(speech@, order@, index as nat).run,
            cuts@.map_values(|c: usize| c as nat) == cut_scan(speech@, order@, index as nat).cuts,
        decreases speech.len() - index,
    {
        proof {
            lemma_scan_shape(speech@, order@, index as nat);
        }
        run = if speech[index] { 0 } else { run + 1 };
        let length = index - start;
        if run >= min_pause && length >= min_segment {
            let cut = index - run / 2;
            cuts.push(cut);
            start = cut;
            run = 0;
        } else if length >= max_segment {
            let from = start + min_segment;
            let q = quietest(order, from, index);
            cuts.push(q);
            start = q;
            run = 0;
        }
        proof {
            assert(cuts@.map_values(|c: usize| c as nat) =~= cut_scan(speech@, order@, (index + 1) as nat).cuts);
        }
        index = index + 1;
    }
    proof {
        let n = speech.len() as nat;
        if n > 0 {
            lemma_scan_shape(speech@, order@, n);
            let s = cut_scan(speech@, order@, n);
            let b = bounds(s.cuts, n);
            let front = seq![0nat] + s.cuts;
            assert(b =~= front.push(n));
            assert forall|k: int| 0 < k < b.len() implies #[trigger] b[k] > b[k - 1] && b[k] - b[k - 1]
                <= MAX_SEGMENT_FRAMES by {
                if k < front.len() {
                    assert(b[k] == front[k] && b[k - 1] == front[k - 1]);
                } else {
                    assert(b[k] == n);
                    assert(b[k - 1] == front[front.len() - 1]);
                }
            }
        }
    }
    cuts
}

/// Piece `k` of a recording in samples, `0 <= k <= cuts.len()`: from its
/// first frame to its end frame, the end held to the `total` samples there
/// are.
pub open spec fn piece(cuts: Seq<usize>, frames: nat, frame: nat, total: nat, k: int) -> (nat, nat) {
    let b = bounds(cuts.map_values(|c: usize| c as nat), frames);
    let to = b[k + 1] * frame;
    (b[k] * frame, if to < total { to } else { total })
}

/// The first `n` pieces that are longer than five frames, in order: shorter
/// ones hold nothing worth recognising.
pub open spec fn long_pieces(cuts: Seq<usize>, frames: nat, frame: nat, total: nat, n: nat) -> Seq<(nat, nat)>
    decreases n,
{
    if n == 0 {
        Seq::empty()
    } else {
        let rest = long_pieces(cuts, frames, frame, total, (n - 1) as nat);
        let p = piece(cuts, frames, frame, total, n - 1);
        if p.1 > p.0 + 5 * frame {
            rest.push(p)
        } else {
            rest
        }
    }
}

/// The sample ranges to recognise one by one: the pieces between the cuts
/// of `frames` frames of `frame` samples, held to `total` samples, without
/// those of five frames or less.
pub fn piece_ranges(cuts: &[usize], frames: usize, frame: usize, total: u64) -> (r: Vec<(u64, u64)>)
    requires
        forall|i: int| 0 <= i < cuts.len() ==> #[trigger] cuts[i] <= frames,
        cuts.len() < usize::MAX,
        frames * frame <= u64::MAX,
        5 * frame <= u64::MAX,
    ensures
        r@.map_values(|p: (u64, u64)| (p.0 as nat, p.1 as nat)) == long_pieces(
            cuts@,
            frames as nat,
            frame as nat,
            total as nat,
            (cuts.len() + 1) as nat,
        ),
{
    let f = frame as u64;
    let least = 5 * f;
    let mut r: Vec<(u64, u64)> = Vec::new();
    let mut k: usize = 0;
    while k <= cuts.len()
        invariant
            forall|i: int| 0 <= i < cuts.len() ==> #[trigger] cuts[i] <= frames,
            frames * frame <= u64::MAX,
            cuts.len() < usize::MAX,
            f == frame,
            least == 5 * frame,
            k <= cuts.len() + 1,
            r@.map_values(|p: (u64, u64)| (p.0 as nat, p.1 as nat)) == long_pieces(
                cuts@,
                frames as nat,
                frame as nat,
                total as nat,
                k as nat,
            ),
        decreases cuts.len() + 1 - k,
    {
        let lo = if k == 0 { 0 } else { cuts[k - 1] };
        let hi = if k == cuts.len() { frames } else { cuts[k] };
        proof {
            assert(lo * frame <= frames * frame) by (nonlinear_arith)
                requires lo <= frames;
            assert(hi * frame <= frames * frame) by (nonlinear_arith)
                requires hi <= frames;
            let b = bounds(cuts@.map_values(|c: usize| c as nat), frames as nat);
            assert(b[k as int] == lo && b[k + 1] == hi);
        }
        let a = lo as u64 * f;
        let end = hi as u64 * f;
        let b = if end < total { end } else { total };
        if b > a && b - a > least {
            r.push((a, b));
        }
        proof {
            assert(r@.map_values(|p: (u64, u64)| (p.0 as nat, p.1 as nat)) =~= long_pieces(
                cuts@,
                frames as nat,
                frame as nat,
                total as nat,
                (k + 1) as nat,
            ));
        }
        k = k + 1;
    }
    r
}

} // verus!
