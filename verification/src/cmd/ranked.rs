//! What the ranked tasks share: merging a worker's selection into the
//! shared one, and the ranked output.

use vstd::prelude::*;
use crate::ngrams::counter::{NgramKey, clamp_sub};
use crate::ngrams::topk::{
    Entry, TopKNgrams, inserted, distinct, rank, sorted_desc, watermark, lemma_inserted,
    lemma_inserted_from, lemma_inserted_keeps, lemma_rank,
};
use crate::text::{join, joined};

verus! {

/// One n-gram of the output.
#[derive(Debug, PartialEq, Eq)]
pub struct RankedNgram {
    /// The tokens of the n-gram.
    pub tokens: Vec<String>,
    /// The tokens joined by single spaces.
    pub string: String,
    /// The count reported for the n-gram.
    pub count: u64,
    /// The place of the n-gram in the output, from one.
    pub rank: usize,
}

/// An n-gram of the output as the contracts see it.
pub struct Ranked {
    pub tokens: NgramKey,
    pub string: Seq<char>,
    pub count: u64,
    pub rank: nat,
}

impl DeepView for RankedNgram {
    type V = Ranked;

    open spec fn deep_view(&self) -> Ranked {
        Ranked {
            tokens: self.tokens.deep_view(),
            string: self.string@,
            count: self.count,
            rank: self.rank as nat,
        }
    }
}

/// The shared selection after each of `entries` was offered to it, in
/// order.
pub open spec fn merged_into(global: Seq<Entry>, entries: Seq<Entry>, k: nat) -> Seq<Entry>
    decreases entries.len(),
{
    if entries.len() == 0 {
        global
    } else {
        inserted(merged_into(global, entries.drop_last(), k), entries.last(), k)
    }
}

/// The count reported for a stored value: the value itself, or what it
/// leaves of `inverse_of` where the task stores inverse counts.
pub open spec fn reported(stored: u64, inverse_of: Option<u64>) -> u64 {
    match inverse_of {
        Some(max) => clamp_sub(max, stored as nat),
        None => stored,
    }
}

/// The output for the entries of a drained selection: each with its tokens
/// joined by a space, its reported count, and its rank.
pub open spec fn ranked(entries: Seq<Entry>, inverse_of: Option<u64>) -> Seq<Ranked> {
    Seq::new(
        entries.len(),
        |i: int|
            Ranked {
                tokens: entries[i].0,
                string: joined(entries[i].0, " "@),
                count: reported(entries[i].1, inverse_of),
                rank: (i + 1) as nat,
            },
    )
}

/// Some entry holds the value `value`.
pub open spec fn holds_value(entries: Seq<Entry>, value: u64) -> bool {
    exists|i: int| 0 <= i < entries.len() && (#[trigger] entries[i]).1 == value
}

/// Offers to the shared selection every entry of a worker's selection,
/// highest count first and each n-gram once.
pub fn merge_selection(global: &mut TopKNgrams, local: TopKNgrams)
    requires
        old(global).wf(),
        local.wf(),
    ensures
        final(global).wf(),
        final(global).capacity() == old(global).capacity(),
        final(global).entries() == merged_into(
            old(global).entries(),
            distinct(local.entries()),
            old(global).capacity(),
        ),
        final(global).min_count_spec() >= old(global).min_count_spec(),
{
    let drained = local.drain();
    let ghost all = drained.deep_view();
    let ghost first = global.entries();
    assert(all.take(0) =~= Seq::<Entry>::empty());
    for entry in it: drained
        invariant
            it.seq() == drained@,
            all == drained.deep_view(),
            first == old(global).entries(),
            global.wf(),
            global.capacity() == old(global).capacity(),
            global.min_count_spec() >= old(global).min_count_spec(),
            global.entries() == merged_into(first, all.take(it.index() as int), global.capacity()),
    {
        proof {
            assert(all.take(it.index() + 1).drop_last() =~= all.take(it.index() as int));
            assert(all.take(it.index() + 1).last() == entry.deep_view());
        }
        global.insert(entry.0, entry.1);
    }
    assert(all.take(all.len() as int) =~= all);
}

/// Turns the entries of a drained selection into the ranked output, and
/// says whether any stored value equals `sentinel`.
pub fn rank_entries(entries: Vec<(Vec<String>, u64)>, inverse_of: Option<u64>, sentinel: u64) -> (out: (
    Vec<RankedNgram>,
    bool,
))
    ensures
        out.0.deep_view() == ranked(entries.deep_view(), inverse_of),
        out.1 == holds_value(entries.deep_view(), sentinel),
{
    let ghost all = entries.deep_view();
    let mut out: Vec<RankedNgram> = Vec::new();
    let mut found = false;
    let total = entries.len();
    for entry in it: entries
        invariant
            it.seq() == entries@,
            all == entries.deep_view(),
            total == entries@.len(),
            out@.len() == it.index(),
            forall|i: int| 0 <= i < it.index() ==> (#[trigger] out@[i]).deep_view() == ranked(all, inverse_of)[i],
            found == holds_value(all.take(it.index() as int), sentinel),
    {
        let ghost done = all.take(it.index() as int);
        let ghost next = all.take(it.index() + 1);
        let stored = entry.1;
        let count = match inverse_of {
            Some(max) => if stored >= max {
                0
            } else {
                max - stored
            },
            None => stored,
        };
        let string = join(&entry.0, " ");
        let rank = out.len() + 1;
        proof {
            assert(all[it.index() as int] == entry.deep_view());
            if stored == sentinel {
                assert(next[it.index() as int].1 == sentinel);
            }
            if holds_value(done, sentinel) {
                let j = choose|j: int| 0 <= j < done.len() && (#[trigger] done[j]).1 == sentinel;
                assert(next[j].1 == sentinel);
            }
            if holds_value(next, sentinel) && stored != sentinel {
                let j = choose|j: int| 0 <= j < next.len() && (#[trigger] next[j]).1 == sentinel;
                assert(done[j].1 == sentinel);
            }
        }
        if stored == sentinel {
            found = true;
        }
        out.push(RankedNgram { tokens: entry.0, string, count, rank });
    }
    assert(all.take(all.len() as int) =~= all);
    assert(out.deep_view() =~= ranked(all, inverse_of));
    (out, found)
}

/// Merging keeps the shared selection sorted and within its capacity.
pub proof fn lemma_merged_into(global: Seq<Entry>, entries: Seq<Entry>, k: nat)
    requires
        sorted_desc(global),
        global.len() <= k,
    ensures
        sorted_desc(merged_into(global, entries, k)),
        merged_into(global, entries, k).len() <= k,
    decreases entries.len(),
{
    if entries.len() > 0 {
        lemma_merged_into(global, entries.drop_last(), k);
        lemma_inserted(merged_into(global, entries.drop_last(), k), entries.last(), k);
    }
}

/// Every entry of the shared selection after a merge was there before or
/// is one of the entries offered.
pub proof fn lemma_merged_from(global: Seq<Entry>, entries: Seq<Entry>, k: nat, x: Entry)
    requires
        sorted_desc(global),
        global.len() <= k,
        merged_into(global, entries, k).contains(x),
    ensures
        global.contains(x) || entries.contains(x),
    decreases entries.len(),
{
    if entries.len() > 0 {
        let front = entries.drop_last();
        lemma_merged_into(global, front, k);
        lemma_inserted_from(merged_into(global, front, k), entries.last(), k, x);
        if x == entries.last() {
            assert(entries[entries.len() - 1] == x);
        } else {
            lemma_merged_from(global, front, k, x);
            if front.contains(x) {
                let j = choose|j: int| 0 <= j < front.len() && front[j] == x;
                assert(entries[j] == x);
            }
        }
    }
}

/// The n-grams of the entries, in order.
pub open spec fn keys_of(entries: Seq<Entry>) -> Seq<NgramKey> {
    Seq::new(entries.len(), |i: int| entries[i].0)
}

/// Entries with pairwise different n-grams, all among `seen`, are no more
/// than the different n-grams of `seen`.
pub proof fn lemma_no_more_than_seen(entries: Seq<Entry>, seen: Seq<NgramKey>)
    requires
        forall|i: int, j: int|
            0 <= i < j < entries.len() ==> (#[trigger] entries[i]).0 != (#[trigger] entries[j]).0,
        forall|i: int| 0 <= i < entries.len() ==> seen.contains((#[trigger] entries[i]).0),
    ensures
        entries.len() <= seen.to_set().len(),
{
    let keys = keys_of(entries);
    assert(keys.no_duplicates()) by {
        assert forall|i: int, j: int| 0 <= i < keys.len() && 0 <= j < keys.len() && i != j implies keys[i]
            != keys[j] by {
            if i < j {
                assert(entries[i].0 != entries[j].0);
            } else {
                assert(entries[j].0 != entries[i].0);
            }
        }
    }
    keys.unique_seq_to_set();
    vstd::seq_lib::seq_to_set_is_finite(seen);
    assert(keys.to_set().subset_of(seen.to_set())) by {
        assert forall|key: NgramKey| keys.to_set().contains(key) implies seen.to_set().contains(key) by {
            let i = choose|i: int| 0 <= i < keys.len() && keys[i] == key;
            assert(seen.contains(entries[i].0));
        }
    }
    vstd::set_lib::lemma_len_subset(keys.to_set(), seen.to_set());
}

/// A selection holds as many entries as it had and was offered, up to its
/// capacity.
pub proof fn lemma_merged_len(global: Seq<Entry>, entries: Seq<Entry>, k: nat)
    requires
        sorted_desc(global),
        global.len() <= k,
    ensures
        merged_into(global, entries, k).len() == if global.len() + entries.len() < k {
            global.len() + entries.len()
        } else {
            k
        },
    decreases entries.len(),
{
    if entries.len() > 0 {
        lemma_merged_len(global, entries.drop_last(), k);
        lemma_merged_into(global, entries.drop_last(), k);
        lemma_inserted(merged_into(global, entries.drop_last(), k), entries.last(), k);
    }
}

/// A selection keeps the largest: every entry that was offered is held,
/// or else the selection is full and holds nothing smaller than it.
pub proof fn lemma_merged_keeps_largest(global: Seq<Entry>, entries: Seq<Entry>, k: nat, j: int)
    requires
        sorted_desc(global),
        global.len() <= k,
        0 <= j < entries.len(),
        k > 0,
    ensures
        merged_into(global, entries, k).contains(entries[j]) || (merged_into(
            global,
            entries,
            k,
        ).len() == k && entries[j].1 <= merged_into(global, entries, k).last().1),
    decreases entries.len(),
{
    let front = entries.drop_last();
    let before = merged_into(global, front, k);
    let after = merged_into(global, entries, k);
    lemma_merged_into(global, front, k);
    lemma_inserted(before, entries.last(), k);
    lemma_inserted_keeps(before, entries.last(), k, entries[j]);
    if j < front.len() {
        assert(front[j] == entries[j]);
        lemma_merged_keeps_largest(global, front, k, j);
        assert(watermark(after, k) >= watermark(before, k));
    }
}

/// Sorted entries that fit an empty selection are, once merged into it,
/// the selection.
pub proof fn lemma_merged_into_empty(entries: Seq<Entry>, k: nat)
    requires
        sorted_desc(entries),
        entries.len() <= k,
    ensures
        merged_into(Seq::empty(), entries, k) == entries,
    decreases entries.len(),
{
    if entries.len() > 0 {
        let front = entries.drop_last();
        assert(sorted_desc(front)) by {
            assert forall|a: int, b: int| 0 <= a <= b < front.len() implies front[a].1 >= front[b].1 by {
                assert(entries[a].1 >= entries[b].1);
            }
        }
        lemma_merged_into_empty(front, k);
        lemma_rank(front, entries.last().1);
        if rank(front, entries.last().1) < front.len() {
            let p = rank(front, entries.last().1);
            assert(front[p].1 < entries.last().1);
            assert(entries[p].1 >= entries[entries.len() - 1].1);
        }
        assert(inserted(front, entries.last(), k) =~= entries);
    }
}

} // verus!
