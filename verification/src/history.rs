//! The dictation history: what was dictated and when, newest first. Entries
//! go by age and by count as the settings say; the sound of an entry goes
//! with it, so every removal names the entries that left.

use vstd::prelude::*;
use crate::text::{chars_of, eq_chars, string_of, trim};

verus! {

/// One dictation. Its moment (milliseconds) is its key and the name of its
/// sound file; the length of the sound is kept as the bit pattern of its
/// `f32` seconds.
pub struct Entry {
    pub at: i64,
    pub text: String,
    /// Whether its sound was kept and can be played again.
    pub audio: bool,
    pub seconds_bits: u32,
}

/// An entry as plain values.
pub struct EntryView {
    pub at: i64,
    pub text: Seq<char>,
    pub audio: bool,
    pub seconds_bits: u32,
}

impl View for Entry {
    type V = EntryView;

    open spec fn view(&self) -> EntryView {
        EntryView { at: self.at, text: self.text@, audio: self.audio, seconds_bits: self.seconds_bits }
    }
}

pub open spec fn entries_view(v: Seq<Entry>) -> Seq<EntryView> {
    v.map_values(|e: Entry| e@)
}

/// A copy of an entry.
fn copy_entry(e: &Entry) -> (r: Entry)
    ensures
        r == *e,
{
    Entry { at: e.at, text: e.text.clone(), audio: e.audio, seconds_bits: e.seconds_bits }
}

/// Whether a dictation is recorded at all: not when its text is blank, and
/// not when the history is switched off ("never").
pub open spec fn records(text: Seq<char>, retention: Seq<char>) -> bool {
    trim(text).len() > 0 && retention != "never"@
}

/// Whether a dictation is recorded.
pub fn should_record(text: &str, retention: &str) -> (r: bool)
    ensures
        r == records(text@, retention@),
{
    let t = crate::text::trim_chars(&chars_of(text));
    t.len() > 0 && !eq_chars(&chars_of(retention), &chars_of("never"))
}

/// Whether an entry is young enough: at most `ttl` old at `now`, or any age
/// when there is no limit in time.
pub open spec fn young(e: EntryView, ttl: Option<i64>, now: i64) -> bool {
    match ttl {
        Some(t) => now - e.at <= t,
        None => true,
    }
}

/// The entries young enough, in order.
pub open spec fn young_ones(v: Seq<EntryView>, ttl: Option<i64>, now: i64) -> Seq<EntryView>
    decreases v.len(),
{
    if v.len() == 0 {
        Seq::empty()
    } else {
        let rest = young_ones(v.drop_last(), ttl, now);
        if young(v.last(), ttl, now) {
            rest.push(v.last())
        } else {
            rest
        }
    }
}

/// The moments of the entries too old, in order.
pub open spec fn old_ones(v: Seq<EntryView>, ttl: Option<i64>, now: i64) -> Seq<i64>
    decreases v.len(),
{
    if v.len() == 0 {
        Seq::empty()
    } else {
        let rest = old_ones(v.drop_last(), ttl, now);
        if young(v.last(), ttl, now) {
            rest
        } else {
            rest.push(v.last().at)
        }
    }
}

/// The history after its rules: the entries too old go first, then all but
/// the first `limit`.
pub open spec fn pruned(v: Seq<EntryView>, ttl: Option<i64>, limit: nat, now: i64) -> Seq<EntryView> {
    let y = young_ones(v, ttl, now);
    if y.len() > limit {
        y.take(limit as int)
    } else {
        y
    }
}

/// The moments of the entries the rules remove, in the order they go.
pub open spec fn pruned_away(v: Seq<EntryView>, ttl: Option<i64>, limit: nat, now: i64) -> Seq<i64> {
    let y = young_ones(v, ttl, now);
    old_ones(v, ttl, now) + if y.len() > limit {
        y.skip(limit as int).map_values(|e: EntryView| e.at)
    } else {
        Seq::empty()
    }
}

/// Applies the rules of the settings: by age (`ttl`, in milliseconds, at
/// `now`), then by count. Returns the moments of the entries removed, whose
/// sounds go too.
pub fn prune(entries: &mut Vec<Entry>, ttl: Option<i64>, limit: usize, now: i64) -> (gone: Vec<i64>)
    ensures
        entries_view(final(entries)@) == pruned(entries_view(old(entries)@), ttl, limit as nat, now),
        gone@ == pruned_away(entries_view(old(entries)@), ttl, limit as nat, now),
{
    let ghost v = entries_view(entries@);
    let mut kept: Vec<Entry> = Vec::new();
    let mut gone: Vec<i64> = Vec::new();
    let n = entries.len();
    let mut i: usize = 0;
    while i < n
        invariant
            n == v.len(),
            i <= n,
            v == entries_view(entries@),
            entries@ == old(entries)@,
            entries_view(kept@) == young_ones(v.take(i as int), ttl, now),
            gone@ == old_ones(v.take(i as int), ttl, now),
        decreases n - i,
    {
        let e = copy_entry(&entries[i]);
        proof {
            assert(e@ == v[i as int]);
            assert(v.take(i + 1).drop_last() =~= v.take(i as int));
            assert(v.take(i + 1).last() == v[i as int]);
        }
        let keep = match ttl {
            Some(t) => (now as i128) - (e.at as i128) <= t as i128,
            None => true,
        };
        if keep {
            kept.push(e);
            proof {
                assert(entries_view(kept@) =~= young_ones(v.take(i as int), ttl, now).push(v[i as int]));
            }
        } else {
            gone.push(e.at);
        }
        i += 1;
    }
    proof {
        assert(v.take(n as int) =~= v);
    }
    let ghost y = entries_view(kept@);
    if kept.len() > limit {
        let mut k = limit;
        while k < kept.len()
            invariant
                limit <= k <= kept@.len(),
                y == entries_view(kept@),
                y.len() > limit,
                gone@ == old_ones(v, ttl, now) + y.subrange(limit as int, k as int).map_values(|e: EntryView| e.at),
            decreases kept.len() - k,
        {
            gone.push(kept[k].at);
            proof {
                assert(y.subrange(limit as int, k + 1).map_values(|e: EntryView| e.at) =~= y.subrange(
                    limit as int,
                    k as int,
                ).map_values(|e: EntryView| e.at).push(y[k as int].at));
            }
            k += 1;
        }
        proof {
            assert(y.subrange(limit as int, y.len() as int) =~= y.skip(limit as int));
        }
        kept.truncate(limit);
        proof {
            assert(entries_view(kept@) =~= y.take(limit as int));
        }
    } else {
        proof {
            assert(gone@ =~= pruned_away(v, ttl, limit as nat, now));
        }
    }
    *entries = kept;
    gone
}

/// A new dictation goes to the top.
pub fn add_entry(entries: &mut Vec<Entry>, e: Entry)
    ensures
        entries_view(final(entries)@) == seq![e@] + entries_view(old(entries)@),
{
    let ghost e_view = e@;
    entries.insert(0, e);
    proof {
        assert(entries_view(final(entries)@) =~= seq![e_view] + entries_view(old(entries)@));
    }
}

/// The entries other than those at the given moment.
pub open spec fn without_at(v: Seq<EntryView>, at: i64) -> Seq<EntryView>
    decreases v.len(),
{
    if v.len() == 0 {
        Seq::empty()
    } else {
        let rest = without_at(v.drop_last(), at);
        if v.last().at == at {
            rest
        } else {
            rest.push(v.last())
        }
    }
}

/// Removes the entry of a moment (its sound goes too).
pub fn remove_entry(entries: &mut Vec<Entry>, at: i64)
    ensures
        entries_view(final(entries)@) == without_at(entries_view(old(entries)@), at),
{
    let ghost v = entries_view(entries@);
    let n = entries.len();
    let mut kept: Vec<Entry> = Vec::new();
    let mut i: usize = 0;
    while i < n
        invariant
            n == v.len(),
            i <= n,
            v == entries_view(entries@),
            entries@ == old(entries)@,
            entries_view(kept@) == without_at(v.take(i as int), at),
        decreases n - i,
    {
        let e = copy_entry(&entries[i]);
        proof {
            assert(e@ == v[i as int]);
            assert(v.take(i + 1).drop_last() =~= v.take(i as int));
        }
        if e.at != at {
            kept.push(e);
            proof {
                assert(entries_view(kept@) =~= without_at(v.take(i as int), at).push(v[i as int]));
            }
        }
        i += 1;
    }
    proof {
        assert(v.take(n as int) =~= v);
    }
    *entries = kept;
}

/// The first position of an entry at the given moment.
pub open spec fn position_of(v: Seq<EntryView>, at: i64, i: int) -> Option<int>
    decreases v.len() - i,
{
    if i < 0 || i >= v.len() {
        None
    } else if v[i].at == at {
        Some(i)
    } else {
        position_of(v, at, i + 1)
    }
}

/// Replaces the text of the entry at the given moment (after it was
/// recognised again); nothing changes when there is none.
pub fn update_text(entries: &mut Vec<Entry>, at: i64, text: &str)
    ensures
        match position_of(entries_view(old(entries)@), at, 0) {
            Some(p) => entries_view(final(entries)@) == entries_view(old(entries)@).update(
                p,
                EntryView { text: text@, ..entries_view(old(entries)@)[p] },
            ),
            None => final(entries)@ == old(entries)@,
        },
{
    let ghost v = entries_view(entries@);
    let mut i: usize = 0;
    while i < entries.len()
        invariant
            i <= entries@.len(),
            entries_view(entries@) == v,
            position_of(v, at, 0) == position_of(v, at, i as int),
            entries@ == old(entries)@,
        decreases entries.len() - i,
    {
        if entries[i].at == at {
            let e = Entry {
                at: entries[i].at,
                text: string_of(&chars_of(text)),
                audio: entries[i].audio,
                seconds_bits: entries[i].seconds_bits,
            };
            entries.set(i, e);
            proof {
                assert(entries_view(entries@) =~= v.update(i as int, EntryView { text: text@, ..v[i as int] }));
            }
            return;
        }
        i += 1;
    }
}

/// What pruning keeps is a part of the history in its order, no entry too
/// old and no more than the limit; every entry either stays or is named as
/// gone, once.
pub proof fn law_prune_keeps_order(v: Seq<EntryView>, ttl: Option<i64>, limit: nat, now: i64)
    ensures
        pruned(v, ttl, limit, now).len() <= limit,
        forall|k: int| 0 <= k < pruned(v, ttl, limit, now).len() ==> young(#[trigger] pruned(v, ttl, limit, now)[k], ttl, now),
        pruned(v, ttl, limit, now).len() + pruned_away(v, ttl, limit, now).len() == v.len(),
{
    lemma_young_split(v, ttl, now);
    let y = young_ones(v, ttl, now);
    if y.len() > limit {
        assert forall|k: int| 0 <= k < y.take(limit as int).len() implies young(#[trigger] y.take(limit as int)[k], ttl, now) by {
            assert(y.take(limit as int)[k] == y[k]);
        }
    }
}

proof fn lemma_young_split(v: Seq<EntryView>, ttl: Option<i64>, now: i64)
    ensures
        young_ones(v, ttl, now).len() + old_ones(v, ttl, now).len() == v.len(),
        forall|k: int| 0 <= k < young_ones(v, ttl, now).len() ==> young(#[trigger] young_ones(v, ttl, now)[k], ttl, now),
    decreases v.len(),
{
    if v.len() > 0 {
        lemma_young_split(v.drop_last(), ttl, now);
        let rest = young_ones(v.drop_last(), ttl, now);
        if young(v.last(), ttl, now) {
            assert forall|k: int| 0 <= k < rest.push(v.last()).len() implies young(#[trigger] rest.push(v.last())[k], ttl, now) by {
                if k < rest.len() {
                    assert(rest.push(v.last())[k] == rest[k]);
                }
            }
        }
    }
}

} // verus!
