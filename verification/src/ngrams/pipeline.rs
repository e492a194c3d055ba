//! What is done with each n-gram of a record: counting it in the table
//! and, for the ranked tasks, offering it to the worker's own selection.

use vstd::prelude::*;
use std::collections::VecDeque;
use crate::ngrams::counter::{
    NgramKey, HashSeed, NgramCounter, lane_index, lane_indices, lanes_after_add, count_after_add,
    max_at,
};
use crate::ngrams::history::{
    Update, after_increments, after_decrements, true_count, lemma_after_increments,
    lemma_after_increments_len, lemma_after_decrements_len, lemma_after_increments_concat,
    lemma_count_between, lemma_increment_covers_true_count,
};
use crate::ngrams::topk::{
    Entry, TopKNgrams, distinct, inserted, watermark, sorted_desc, dominated, has_key,
    lemma_distinct, lemma_distinct_keeps_highest, lemma_inserted,
    lemma_inserted_from, lemma_inserted_keeps, lemma_inserted_rejects, lemma_dominated_both,
    lemma_dominated_high, lemma_dominated_low,
};
use crate::ngrams::window::{windows, complete, window_after, slide, lemma_slide, lemma_complete_all};

verus! {

/// The updates that count each of `keys` once, in order.
pub open spec fn unit_updates(keys: Seq<NgramKey>) -> Seq<Update> {
    Seq::new(keys.len(), |i: int| (keys[i], 1u64))
}

/// What decides whether a counted n-gram is offered to a selection.
pub struct Admission {
    /// The hash seeds of the table.
    pub seeds: Seq<HashSeed>,
    /// The largest value a lane of the table holds.
    pub max: u64,
    /// The capacity of the selection.
    pub capacity: nat,
    /// A count must exceed this.
    pub threshold: u64,
    /// A count must reach this: the watermark that the shared selection
    /// published.
    pub floor: u64,
}

/// A count passes the threshold, the selection's own watermark and the
/// published one.
pub open spec fn admissible(count: u64, local: Seq<Entry>, a: Admission) -> bool {
    count > a.threshold && count >= watermark(local, a.capacity) && count >= a.floor
}

/// The selection after an n-gram with its count was considered.
pub open spec fn offered(local: Seq<Entry>, key: NgramKey, count: u64, a: Admission) -> Seq<Entry> {
    if admissible(count, local, a) {
        inserted(local, (key, count), a.capacity)
    } else {
        local
    }
}

/// The selection after each of `keys` was counted in a table that started
/// as `lanes`, and considered with the count that its increment returned.
pub open spec fn admitted(lanes: Seq<u64>, local: Seq<Entry>, keys: Seq<NgramKey>, a: Admission) -> Seq<
    Entry,
>
    decreases keys.len(),
{
    if keys.len() == 0 {
        local
    } else {
        let front = keys.drop_last();
        let now = after_increments(lanes, a.seeds, unit_updates(front), a.max);
        let count = count_after_add(now, lane_indices(a.seeds, keys.last(), lanes.len()), 1, a.max);
        offered(admitted(lanes, local, front, a), keys.last(), count, a)
    }
}

/// Whether an n-gram that passed the tests is kept, given the random word
/// drawn for it: always without a limit, else if the upper twenty-four
/// bits of the word do not exceed the limit.
pub open spec fn kept(word: u32, keep_limit: Option<u32>) -> bool {
    match keep_limit {
        None => true,
        Some(limit) => (word >> 8) <= limit,
    }
}

/// The selection after each of `keys` was looked up in the table `lanes`
/// and considered with the greatest of its lanes, where `words[i]` is the
/// random word drawn for the n-gram `i`.
pub open spec fn admitted_rare(
    lanes: Seq<u64>,
    local: Seq<Entry>,
    keys: Seq<NgramKey>,
    a: Admission,
    words: Seq<u32>,
    keep_limit: Option<u32>,
) -> Seq<Entry>
    decreases keys.len(),
{
    if keys.len() == 0 {
        local
    } else {
        let before = admitted_rare(lanes, local, keys.drop_last(), a, words, keep_limit);
        let count = max_at(lanes, lane_indices(a.seeds, keys.last(), lanes.len()));
        if kept(words[keys.len() - 1], keep_limit) {
            offered(before, keys.last(), count, a)
        } else {
            before
        }
    }
}

/// Calls `rand::random` for a `u32`. Trusted: nothing is stated of the
/// word, which is drawn at random.
#[verifier::external_body]
fn random_word() -> u32 {
    rand::random::<u32>()
}

/// Whether an n-gram that passed the tests is kept, given the random word
/// drawn for it.
pub fn keeps(word: u32, keep_limit: Option<u32>) -> (keep: bool)
    ensures
        keep == kept(word, keep_limit),
{
    match keep_limit {
        None => true,
        Some(limit) => (word >> 8) <= limit,
    }
}

/// A copy of the tokens in the window.
pub fn copy_window(window: &VecDeque<String>) -> (ngram: Vec<String>)
    ensures
        ngram.deep_view() == window.deep_view(),
{
    let mut ngram: Vec<String> = Vec::new();
    let mut i: usize = 0;
    while i < window.len()
        invariant
            i <= window@.len(),
            ngram@.len() == i,
            forall|j: int| 0 <= j < i ==> ngram@[j]@ == window@[j]@,
        decreases window@.len() - i,
    {
        ngram.push(window[i].clone());
        i += 1;
    }
    assert(ngram.deep_view() =~= window.deep_view());
    ngram
}

/// Counts each n-gram of `tokens` once.
pub fn count_ngrams(counter: &mut NgramCounter, tokens: &Vec<String>, n: usize)
    requires
        old(counter).wf(),
    ensures
        final(counter).wf(),
        final(counter).seeds() == old(counter).seeds(),
        final(counter).width() == old(counter).width(),
        final(counter).initial() == old(counter).initial(),
        final(counter).lanes() == after_increments(
            old(counter).lanes(),
            old(counter).seeds(),
            unit_updates(windows(tokens.deep_view(), n as nat)),
            old(counter).max(),
        ),
{
    let ghost all = tokens.deep_view();
    let ghost keys = windows(all, n as nat);
    let ghost start = counter.lanes();
    let mut window: VecDeque<String> = VecDeque::new();
    let mut i: usize = 0;
    proof {
        assert(window.deep_view() =~= window_after(all, 0, n as nat));
        assert(unit_updates(keys.take(0)) =~= Seq::<Update>::empty());
    }
    while i < tokens.len()
        invariant
            i <= tokens@.len(),
            all == tokens.deep_view(),
            keys == windows(all, n as nat),
            start == old(counter).lanes(),
            counter.wf(),
            counter.seeds() == old(counter).seeds(),
            counter.width() == old(counter).width(),
            counter.initial() == old(counter).initial(),
            window.deep_view() == window_after(all, i as int, n as nat),
            0 <= complete(i as int, n as nat) <= keys.len(),
            counter.lanes() == after_increments(
                start,
                counter.seeds(),
                unit_updates(keys.take(complete(i as int, n as nat))),
                counter.max(),
            ),
        decreases tokens@.len() - i,
    {
        proof {
            lemma_slide(all, i as int, n as nat);
            counter.lemma_wf();
            lemma_after_increments_len(
                start,
                counter.seeds(),
                unit_updates(keys.take(complete(i as int, n as nat))),
                counter.max(),
            );
        }
        let full = slide(&mut window, &tokens[i], n);
        if full {
            counter.increment(&window, 1);
            proof {
                let done = complete(i as int, n as nat);
                let next = unit_updates(keys.take(done + 1));
                assert(next.drop_last() =~= unit_updates(keys.take(done)));
                assert(next.last() == (keys[done], 1u64));
            }
        }
        i += 1;
    }
    proof {
        lemma_complete_all(all, n as nat);
        assert(keys.take(keys.len() as int) =~= keys);
    }
}

/// Takes one from the count of each n-gram of `tokens`.
pub fn discount_ngrams(counter: &mut NgramCounter, tokens: &Vec<String>, n: usize)
    requires
        old(counter).wf(),
    ensures
        final(counter).wf(),
        final(counter).seeds() == old(counter).seeds(),
        final(counter).width() == old(counter).width(),
        final(counter).initial() == old(counter).initial(),
        final(counter).lanes() == after_decrements(
            old(counter).lanes(),
            old(counter).seeds(),
            unit_updates(windows(tokens.deep_view(), n as nat)),
        ),
{
    let ghost all = tokens.deep_view();
    let ghost keys = windows(all, n as nat);
    let ghost start = counter.lanes();
    let mut window: VecDeque<String> = VecDeque::new();
    let mut i: usize = 0;
    proof {
        assert(window.deep_view() =~= window_after(all, 0, n as nat));
        assert(unit_updates(keys.take(0)) =~= Seq::<Update>::empty());
    }
    while i < tokens.len()
        invariant
            i <= tokens@.len(),
            all == tokens.deep_view(),
            keys == windows(all, n as nat),
            start == old(counter).lanes(),
            counter.wf(),
            counter.seeds() == old(counter).seeds(),
            counter.width() == old(counter).width(),
            counter.initial() == old(counter).initial(),
            window.deep_view() == window_after(all, i as int, n as nat),
            0 <= complete(i as int, n as nat) <= keys.len(),
            counter.lanes() == after_decrements(
                start,
                counter.seeds(),
                unit_updates(keys.take(complete(i as int, n as nat))),
            ),
        decreases tokens@.len() - i,
    {
        proof {
            lemma_slide(all, i as int, n as nat);
            counter.lemma_wf();
            lemma_after_decrements_len(
                start,
                counter.seeds(),
                unit_updates(keys.take(complete(i as int, n as nat))),
            );
        }
        let full = slide(&mut window, &tokens[i], n);
        if full {
            counter.decrement(&window, 1);
            proof {
                let done = complete(i as int, n as nat);
                let next = unit_updates(keys.take(done + 1));
                assert(next.drop_last() =~= unit_updates(keys.take(done)));
                assert(next.last() == (keys[done], 1u64));
            }
        }
        i += 1;
    }
    proof {
        lemma_complete_all(all, n as nat);
        assert(keys.take(keys.len() as int) =~= keys);
    }
}

/// Counts each n-gram of `tokens` once and offers it to `local` where the
/// count that the table returns exceeds `threshold` and reaches both the
/// watermark of `local` and `floor`.
pub fn collect_frequent(
    counter: &mut NgramCounter,
    local: &mut TopKNgrams,
    tokens: &Vec<String>,
    n: usize,
    threshold: u64,
    floor: u64,
)
    requires
        old(counter).wf(),
        old(local).wf(),
    ensures
        final(counter).wf(),
        final(counter).seeds() == old(counter).seeds(),
        final(counter).width() == old(counter).width(),
        final(counter).initial() == old(counter).initial(),
        final(counter).lanes() == after_increments(
            old(counter).lanes(),
            old(counter).seeds(),
            unit_updates(windows(tokens.deep_view(), n as nat)),
            old(counter).max(),
        ),
        final(local).wf(),
        final(local).capacity() == old(local).capacity(),
        final(local).entries() == admitted(
            old(counter).lanes(),
            old(local).entries(),
            windows(tokens.deep_view(), n as nat),
            (Admission {
                seeds: old(counter).seeds(),
                max: old(counter).max(),
                capacity: old(local).capacity(),
                threshold,
                floor,
            }),
        ),
{
    let ghost all = tokens.deep_view();
    let ghost keys = windows(all, n as nat);
    let ghost start = counter.lanes();
    let ghost first = local.entries();
    let ghost a = Admission {
        seeds: counter.seeds(),
        max: counter.max(),
        capacity: local.capacity(),
        threshold,
        floor,
    };
    let mut window: VecDeque<String> = VecDeque::new();
    let mut i: usize = 0;
    proof {
        assert(window.deep_view() =~= window_after(all, 0, n as nat));
        assert(unit_updates(keys.take(0)) =~= Seq::<Update>::empty());
    }
    while i < tokens.len()
        invariant
            i <= tokens@.len(),
            all == tokens.deep_view(),
            keys == windows(all, n as nat),
            start == old(counter).lanes(),
            first == old(local).entries(),
            a == (Admission {
                seeds: old(counter).seeds(),
                max: old(counter).max(),
                capacity: old(local).capacity(),
                threshold,
                floor,
            }),
            counter.wf(),
            counter.seeds() == old(counter).seeds(),
            counter.width() == old(counter).width(),
            counter.initial() == old(counter).initial(),
            local.wf(),
            local.capacity() == old(local).capacity(),
            window.deep_view() == window_after(all, i as int, n as nat),
            0 <= complete(i as int, n as nat) <= keys.len(),
            counter.lanes() == after_increments(
                start,
                a.seeds,
                unit_updates(keys.take(complete(i as int, n as nat))),
                a.max,
            ),
            local.entries() == admitted(start, first, keys.take(complete(i as int, n as nat)), a),
        decreases tokens@.len() - i,
    {
        proof {
            lemma_slide(all, i as int, n as nat);
            counter.lemma_wf();
            local.lemma_wf();
            lemma_after_increments_len(start, a.seeds, unit_updates(keys.take(complete(i as int, n as nat))), a.max);
        }
        let full = slide(&mut window, &tokens[i], n);
        if full {
            let count = counter.increment(&window, 1);
            proof {
                let done = complete(i as int, n as nat);
                let next = unit_updates(keys.take(done + 1));
                assert(next.drop_last() =~= unit_updates(keys.take(done)));
                assert(next.last() == (keys[done], 1u64));
                assert(keys.take(done + 1).drop_last() =~= keys.take(done));
                assert(keys.take(done + 1).last() == keys[done]);
            }
            if count > threshold && count >= local.min_count() && count >= floor {
                let ngram = copy_window(&window);
                local.insert(ngram, count);
            }
        }
        i += 1;
    }
    proof {
        lemma_complete_all(all, n as nat);
        assert(keys.take(keys.len() as int) =~= keys);
    }
}

/// Looks up each n-gram of `tokens` and offers it to `local` where the
/// greatest of its lanes exceeds `threshold` and reaches both the watermark
/// of `local` and `floor`. With a `keep_limit`, a random word is drawn for
/// each n-gram that passes, and the n-gram is dropped if the upper
/// twenty-four bits of the word exceed the limit. Whatever was drawn, the
/// selection is the one that some sequence of words gives.
pub fn collect_rare(
    counter: &NgramCounter,
    local: &mut TopKNgrams,
    tokens: &Vec<String>,
    n: usize,
    threshold: u64,
    floor: u64,
    keep_limit: Option<u32>,
)
    requires
        counter.wf(),
        old(local).wf(),
    ensures
        final(local).wf(),
        final(local).capacity() == old(local).capacity(),
        exists|words: Seq<u32>|
            words.len() == windows(tokens.deep_view(), n as nat).len() && final(local).entries()
                == #[trigger] admitted_rare(
                counter.lanes(),
                old(local).entries(),
                windows(tokens.deep_view(), n as nat),
                (Admission {
                    seeds: counter.seeds(),
                    max: counter.max(),
                    capacity: old(local).capacity(),
                    threshold,
                    floor,
                }),
                words,
                keep_limit,
            ),
{
    let ghost all = tokens.deep_view();
    let ghost keys = windows(all, n as nat);
    let ghost first = local.entries();
    let ghost a = Admission {
        seeds: counter.seeds(),
        max: counter.max(),
        capacity: local.capacity(),
        threshold,
        floor,
    };
    let ghost mut words: Seq<u32> = Seq::empty();
    let mut window: VecDeque<String> = VecDeque::new();
    let mut i: usize = 0;
    proof {
        assert(window.deep_view() =~= window_after(all, 0, n as nat));
    }
    while i < tokens.len()
        invariant
            i <= tokens@.len(),
            all == tokens.deep_view(),
            keys == windows(all, n as nat),
            first == old(local).entries(),
            a == (Admission {
                seeds: counter.seeds(),
                max: counter.max(),
                capacity: old(local).capacity(),
                threshold,
                floor,
            }),
            counter.wf(),
            local.wf(),
            local.capacity() == old(local).capacity(),
            window.deep_view() == window_after(all, i as int, n as nat),
            0 <= complete(i as int, n as nat) <= keys.len(),
            words.len() == complete(i as int, n as nat),
            local.entries() == admitted_rare(
                counter.lanes(),
                first,
                keys.take(complete(i as int, n as nat)),
                a,
                words,
                keep_limit,
            ),
        decreases tokens@.len() - i,
    {
        proof {
            lemma_slide(all, i as int, n as nat);
            local.lemma_wf();
        }
        let full = slide(&mut window, &tokens[i], n);
        if full {
            let ghost done = complete(i as int, n as nat);
            let ghost before = local.entries();
            let count = counter.max_count(&window);
            let mut word: u32 = 0;
            let passes = count > threshold && count >= local.min_count() && count >= floor;
            if passes {
                if keep_limit.is_some() {
                    word = random_word();
                }
                if keeps(word, keep_limit) {
                    let ngram = copy_window(&window);
                    local.insert(ngram, count);
                }
            }
            proof {
                let longer = words.push(word);
                assert(keys.take(done + 1).drop_last() =~= keys.take(done));
                assert(keys.take(done + 1).last() == keys[done]);
                lemma_admitted_rare_words(counter.lanes(), first, keys.take(done), a, words, longer, keep_limit);
                if !passes {
                    assert(offered(before, keys[done], count, a) == before);
                }
                words = longer;
            }
        }
        i += 1;
    }
    proof {
        lemma_complete_all(all, n as nat);
        assert(keys.take(keys.len() as int) =~= keys);
    }
}

/// Only the words drawn for the n-grams considered matter.
pub proof fn lemma_admitted_rare_words(
    lanes: Seq<u64>,
    local: Seq<Entry>,
    keys: Seq<NgramKey>,
    a: Admission,
    words: Seq<u32>,
    others: Seq<u32>,
    keep_limit: Option<u32>,
)
    requires
        keys.len() <= words.len(),
        keys.len() <= others.len(),
        forall|i: int| 0 <= i < keys.len() ==> words[i] == others[i],
    ensures
        admitted_rare(lanes, local, keys, a, words, keep_limit) == admitted_rare(
            lanes,
            local,
            keys,
            a,
            others,
            keep_limit,
        ),
    decreases keys.len(),
{
    if keys.len() > 0 {
        lemma_admitted_rare_words(lanes, local, keys.drop_last(), a, words, others, keep_limit);
    }
}

/// Considering one run of n-grams after another is considering their
/// concatenation.
pub proof fn lemma_admitted_concat(
    lanes: Seq<u64>,
    local: Seq<Entry>,
    first: Seq<NgramKey>,
    second: Seq<NgramKey>,
    a: Admission,
)
    ensures
        admitted(lanes, local, first + second, a) == admitted(
            after_increments(lanes, a.seeds, unit_updates(first), a.max),
            admitted(lanes, local, first, a),
            second,
            a,
        ),
    decreases second.len(),
{
    let middle = after_increments(lanes, a.seeds, unit_updates(first), a.max);
    lemma_after_increments_len(lanes, a.seeds, unit_updates(first), a.max);
    if second.len() == 0 {
        assert(first + second =~= first);
    } else {
        let front = second.drop_last();
        assert((first + second).drop_last() =~= first + front);
        assert((first + second).last() == second.last());
        lemma_admitted_concat(lanes, local, first, front, a);
        assert(unit_updates(first + front) =~= unit_updates(first) + unit_updates(front));
        lemma_after_increments_concat(lanes, a.seeds, unit_updates(first), unit_updates(front), a.max);
    }
}

/// Looking up one run of n-grams after another is looking up their
/// concatenation, with the words drawn for the first run followed by those
/// drawn for the second.
pub proof fn lemma_admitted_rare_concat(
    lanes: Seq<u64>,
    local: Seq<Entry>,
    first: Seq<NgramKey>,
    second: Seq<NgramKey>,
    a: Admission,
    words: Seq<u32>,
    more: Seq<u32>,
    keep_limit: Option<u32>,
)
    requires
        words.len() == first.len(),
        more.len() == second.len(),
    ensures
        admitted_rare(lanes, local, first + second, a, words + more, keep_limit) == admitted_rare(
            lanes,
            admitted_rare(lanes, local, first, a, words, keep_limit),
            second,
            a,
            more,
            keep_limit,
        ),
    decreases second.len(),
{
    if second.len() == 0 {
        assert(first + second =~= first);
        lemma_admitted_rare_words(lanes, local, first, a, words + more, words, keep_limit);
    } else {
        let front = second.drop_last();
        assert((first + second).drop_last() =~= first + front);
        assert((first + second).last() == second.last());
        lemma_admitted_rare_concat(lanes, local, first, front, a, words, more.drop_last(), keep_limit);
        lemma_admitted_rare_words(
            lanes,
            local,
            first + front,
            a,
            words + more,
            words + more.drop_last(),
            keep_limit,
        );
        let inner = admitted_rare(lanes, local, first, a, words, keep_limit);
        lemma_admitted_rare_words(lanes, inner, front, a, more, more.drop_last(), keep_limit);
        assert((words + more)[(first + second).len() - 1] == more[second.len() - 1]);
    }
}

/// Considering n-grams keeps a selection sorted and within its capacity,
/// and every entry it then holds was there before or is one of the
/// n-grams.
pub proof fn lemma_admitted(lanes: Seq<u64>, local: Seq<Entry>, keys: Seq<NgramKey>, a: Admission)
    requires
        sorted_desc(local),
        local.len() <= a.capacity,
    ensures
        sorted_desc(admitted(lanes, local, keys, a)),
        admitted(lanes, local, keys, a).len() <= a.capacity,
        forall|i: int|
            0 <= i < admitted(lanes, local, keys, a).len() ==> local.contains(
                #[trigger] admitted(lanes, local, keys, a)[i],
            ) || keys.contains(admitted(lanes, local, keys, a)[i].0),
    decreases keys.len(),
{
    if keys.len() > 0 {
        let front = keys.drop_last();
        let before = admitted(lanes, local, front, a);
        let after = admitted(lanes, local, keys, a);
        lemma_admitted(lanes, local, front, a);
        let now = after_increments(lanes, a.seeds, unit_updates(front), a.max);
        let count = count_after_add(now, lane_indices(a.seeds, keys.last(), lanes.len()), 1, a.max);
        lemma_inserted(before, (keys.last(), count), a.capacity);
        assert forall|i: int| 0 <= i < after.len() implies local.contains(#[trigger] after[i])
            || keys.contains(after[i].0) by {
            if admissible(count, before, a) {
                lemma_inserted_from(before, (keys.last(), count), a.capacity, after[i]);
            }
            if before.contains(after[i]) {
                let j = choose|j: int| 0 <= j < before.len() && before[j] == after[i];
                if front.contains(before[j].0) {
                    let x = choose|x: int| 0 <= x < front.len() && front[x] == before[j].0;
                    assert(keys[x] == before[j].0);
                }
            } else {
                assert(keys[keys.len() - 1] == after[i].0);
            }
        }
    }
}

/// Looking n-grams up keeps a selection sorted and within its capacity,
/// and every entry it then holds was there before or is one of the
/// n-grams.
pub proof fn lemma_admitted_rare(
    lanes: Seq<u64>,
    local: Seq<Entry>,
    keys: Seq<NgramKey>,
    a: Admission,
    words: Seq<u32>,
    keep_limit: Option<u32>,
)
    requires
        sorted_desc(local),
        local.len() <= a.capacity,
    ensures
        sorted_desc(admitted_rare(lanes, local, keys, a, words, keep_limit)),
        admitted_rare(lanes, local, keys, a, words, keep_limit).len() <= a.capacity,
        forall|i: int|
            0 <= i < admitted_rare(lanes, local, keys, a, words, keep_limit).len() ==> local.contains(
                #[trigger] admitted_rare(lanes, local, keys, a, words, keep_limit)[i],
            ) || keys.contains(admitted_rare(lanes, local, keys, a, words, keep_limit)[i].0),
    decreases keys.len(),
{
    if keys.len() > 0 {
        let front = keys.drop_last();
        let before = admitted_rare(lanes, local, front, a, words, keep_limit);
        let after = admitted_rare(lanes, local, keys, a, words, keep_limit);
        lemma_admitted_rare(lanes, local, front, a, words, keep_limit);
        let count = max_at(lanes, lane_indices(a.seeds, keys.last(), lanes.len()));
        lemma_inserted(before, (keys.last(), count), a.capacity);
        assert forall|i: int| 0 <= i < after.len() implies local.contains(#[trigger] after[i])
            || keys.contains(after[i].0) by {
            if after != before {
                lemma_inserted_from(before, (keys.last(), count), a.capacity, after[i]);
            }
            if before.contains(after[i]) {
                let j = choose|j: int| 0 <= j < before.len() && before[j] == after[i];
                if front.contains(before[j].0) {
                    let x = choose|x: int| 0 <= x < front.len() && front[x] == before[j].0;
                    assert(keys[x] == before[j].0);
                }
            } else {
                assert(keys[keys.len() - 1] == after[i].0);
            }
        }
    }
}

/// Dropping n-grams at random never puts a larger value at any rank: for
/// the same n-grams looked up in the same table against the same
/// published watermark, the selection gathered with drops is dominated,
/// rank by rank, by the selection gathered without, whatever words were
/// drawn. As the values stored are what the n-grams' lanes kept of the
/// largest value, the counts reported without drops are, rank by rank, no
/// larger than those reported with drops.
pub proof fn lemma_drops_are_dominated(
    lanes: Seq<u64>,
    low: Seq<Entry>,
    high: Seq<Entry>,
    keys: Seq<NgramKey>,
    a: Admission,
    words: Seq<u32>,
    keep_limit: Option<u32>,
)
    requires
        sorted_desc(low),
        sorted_desc(high),
        low.len() <= a.capacity,
        high.len() <= a.capacity,
        dominated(low, high),
    ensures
        dominated(
            admitted_rare(lanes, low, keys, a, words, keep_limit),
            admitted_rare(lanes, high, keys, a, words, None),
        ),
    decreases keys.len(),
{
    if keys.len() > 0 {
        let front = keys.drop_last();
        let l = admitted_rare(lanes, low, front, a, words, keep_limit);
        let h = admitted_rare(lanes, high, front, a, words, None);
        lemma_drops_are_dominated(lanes, low, high, front, a, words, keep_limit);
        lemma_admitted_rare(lanes, low, front, a, words, keep_limit);
        lemma_admitted_rare(lanes, high, front, a, words, None);
        let count = max_at(lanes, lane_indices(a.seeds, keys.last(), lanes.len()));
        let e = (keys.last(), count);
        let takes_low = kept(words[keys.len() - 1], keep_limit) && admissible(count, l, a);
        let takes_high = admissible(count, h, a);
        if takes_high {
            if takes_low {
                lemma_dominated_both(l, h, e, e, a.capacity);
            } else {
                lemma_dominated_high(l, h, e, a.capacity);
            }
        } else if takes_low {
            lemma_dominated_low(l, h, e, a.capacity);
        }
    }
}

/// Without a keep limit the words drawn do not matter.
pub proof fn lemma_admitted_rare_without_drops(
    lanes: Seq<u64>,
    local: Seq<Entry>,
    keys: Seq<NgramKey>,
    a: Admission,
    words: Seq<u32>,
    others: Seq<u32>,
)
    ensures
        admitted_rare(lanes, local, keys, a, words, None) == admitted_rare(
            lanes,
            local,
            keys,
            a,
            others,
            None,
        ),
    decreases keys.len(),
{
    if keys.len() > 0 {
        lemma_admitted_rare_without_drops(lanes, local, keys.drop_last(), a, words, others);
    }
}

/// The value of an entry is the greatest of the lanes of its n-gram in
/// the table `lanes`.
pub open spec fn looked_up(lanes: Seq<u64>, seeds: Seq<HashSeed>, e: Entry) -> bool {
    e.1 == max_at(lanes, lane_indices(seeds, e.0, lanes.len()))
}

/// Every entry that looking n-grams up adds to a selection holds the
/// greatest of the lanes of its n-gram.
pub proof fn lemma_admitted_rare_values(
    lanes: Seq<u64>,
    local: Seq<Entry>,
    keys: Seq<NgramKey>,
    a: Admission,
    words: Seq<u32>,
    keep_limit: Option<u32>,
)
    requires
        sorted_desc(local),
        local.len() <= a.capacity,
    ensures
        forall|i: int|
            0 <= i < admitted_rare(lanes, local, keys, a, words, keep_limit).len() ==> local.contains(
                #[trigger] admitted_rare(lanes, local, keys, a, words, keep_limit)[i],
            ) || looked_up(lanes, a.seeds, admitted_rare(lanes, local, keys, a, words, keep_limit)[i]),
    decreases keys.len(),
{
    if keys.len() > 0 {
        let front = keys.drop_last();
        let before = admitted_rare(lanes, local, front, a, words, keep_limit);
        let after = admitted_rare(lanes, local, keys, a, words, keep_limit);
        lemma_admitted_rare_values(lanes, local, front, a, words, keep_limit);
        lemma_admitted_rare(lanes, local, front, a, words, keep_limit);
        let count = max_at(lanes, lane_indices(a.seeds, keys.last(), lanes.len()));
        assert forall|i: int| 0 <= i < after.len() implies local.contains(#[trigger] after[i])
            || looked_up(lanes, a.seeds, after[i]) by {
            if after != before {
                lemma_inserted_from(before, (keys.last(), count), a.capacity, after[i]);
            }
            if before.contains(after[i]) {
                let j = choose|j: int| 0 <= j < before.len() && before[j] == after[i];
            }
        }
    }
}

/// The count is the largest value a lane holds, or at least `truth`: it
/// does not undercount.
pub open spec fn covers(count: u64, truth: nat, max: u64) -> bool {
    count >= max || count >= truth
}

/// The count of the entry exceeds no lane of its n-gram.
pub open spec fn below_lanes(lanes: Seq<u64>, seeds: Seq<HashSeed>, e: Entry) -> bool {
    forall|j: int|
        0 <= j < seeds.len() ==> e.1 <= lanes[#[trigger] lane_index(seeds[j], e.0, lanes.len())]
}

/// Every entry gathered from a run of n-grams has passed the threshold and
/// the published watermark, and its count exceeds no lane of its n-gram
/// in the table as the run left it.
pub proof fn lemma_admitted_entries(lanes: Seq<u64>, keys: Seq<NgramKey>, a: Admission, i: int)
    requires
        lanes.len() > 0,
        a.seeds.len() > 0,
        forall|l: int| 0 <= l < lanes.len() ==> #[trigger] lanes[l] <= a.max,
        0 <= i < admitted(lanes, Seq::empty(), keys, a).len(),
    ensures
        admitted(lanes, Seq::empty(), keys, a)[i].1 > a.threshold,
        admitted(lanes, Seq::empty(), keys, a)[i].1 >= a.floor,
        below_lanes(
            after_increments(lanes, a.seeds, unit_updates(keys), a.max),
            a.seeds,
            admitted(lanes, Seq::empty(), keys, a)[i],
        ),
    decreases keys.len(),
{
    let front = keys.drop_last();
    let g = keys.last();
    let before = admitted(lanes, Seq::empty(), front, a);
    let after = admitted(lanes, Seq::empty(), keys, a);
    let table = after_increments(lanes, a.seeds, unit_updates(front), a.max);
    let now = after_increments(lanes, a.seeds, unit_updates(keys), a.max);
    let at = lane_indices(a.seeds, g, lanes.len());
    let count = count_after_add(table, at, 1, a.max);
    let x = after[i];
    lemma_admitted(lanes, Seq::empty(), front, a);
    lemma_after_increments(lanes, a.seeds, unit_updates(front), a.max);
    assert(unit_updates(keys).drop_last() =~= unit_updates(front));
    assert(unit_updates(keys).last() == (g, 1u64));
    assert(now == lanes_after_add(table, at, 1, a.max));
    lemma_count_between(table, at, 1, a.max);
    if admissible(count, before, a) {
        lemma_inserted_from(before, (g, count), a.capacity, x);
    }
    if before.contains(x) {
        let m = choose|m: int| 0 <= m < before.len() && before[m] == x;
        lemma_admitted_entries(lanes, front, a, m);
        assert forall|j: int| 0 <= j < a.seeds.len() implies x.1 <= now[#[trigger] lane_index(
            a.seeds[j],
            x.0,
            now.len(),
        )] by {
            let l = lane_index(a.seeds[j], x.0, table.len());
            assert(x.1 <= table[l]);
            assert(now[l] >= table[l]);
        }
    } else {
        assert(x == (g, count));
        assert forall|j: int| 0 <= j < a.seeds.len() implies x.1 <= now[#[trigger] lane_index(
            a.seeds[j],
            x.0,
            now.len(),
        )] by {
            assert(at[j] == lane_index(a.seeds[j], g, lanes.len()));
            assert(count <= lanes_after_add(table, at, 1, a.max)[at[j]]);
        }
    }
}

/// A selection gathered from a run of n-grams does not undercount: of
/// every n-gram it holds, it holds an entry whose count is at least the
/// number of times the n-gram occurred in the run, or is the largest value
/// a lane holds.
pub proof fn lemma_admitted_covers(lanes: Seq<u64>, keys: Seq<NgramKey>, a: Admission, key: NgramKey)
    requires
        lanes.len() > 0,
        a.seeds.len() > 0,
        forall|l: int| 0 <= l < lanes.len() ==> #[trigger] lanes[l] <= a.max,
        has_key(admitted(lanes, Seq::empty(), keys, a), key),
    ensures
        exists|i: int|
            0 <= i < admitted(lanes, Seq::empty(), keys, a).len() && (#[trigger] admitted(
                lanes,
                Seq::empty(),
                keys,
                a,
            )[i]).0 == key && covers(
                admitted(lanes, Seq::empty(), keys, a)[i].1,
                true_count(unit_updates(keys), key),
                a.max,
            ),
    decreases keys.len(),
{
    let front = keys.drop_last();
    let g = keys.last();
    let before = admitted(lanes, Seq::empty(), front, a);
    let after = admitted(lanes, Seq::empty(), keys, a);
    let table = after_increments(lanes, a.seeds, unit_updates(front), a.max);
    let at = lane_indices(a.seeds, g, lanes.len());
    let count = count_after_add(table, at, 1, a.max);
    let e = (g, count);
    let truth = true_count(unit_updates(keys), key);
    let w = choose|w: int| 0 <= w < after.len() && (#[trigger] after[w]).0 == key;
    let y = after[w];
    lemma_admitted(lanes, Seq::empty(), front, a);
    lemma_after_increments(lanes, a.seeds, unit_updates(front), a.max);
    assert(unit_updates(keys).drop_last() =~= unit_updates(front));
    assert(unit_updates(keys).last() == (g, 1u64));
    assert(unit_updates(keys) =~= unit_updates(front).push((g, 1u64)));
    lemma_inserted_keeps(before, e, a.capacity, e);
    if admissible(count, before, a) {
        lemma_inserted_from(before, e, a.capacity, y);
    }
    if key != g {
        assert(before.contains(y));
        let t = choose|t: int| 0 <= t < before.len() && before[t] == y;
        assert(before[t].0 == key);
        lemma_admitted_covers(lanes, front, a, key);
        let m = choose|m: int|
            0 <= m < before.len() && (#[trigger] before[m]).0 == key && covers(
                before[m].1,
                true_count(unit_updates(front), key),
                a.max,
            );
        let x = before[m];
        lemma_inserted_keeps(before, e, a.capacity, x);
        if after.contains(x) {
            let n = choose|n: int| 0 <= n < after.len() && after[n] == x;
            assert(after[n].0 == key && covers(after[n].1, truth, a.max));
        } else {
            assert(before[t].1 >= before[before.len() - 1].1);
            assert(after[w].0 == key && covers(after[w].1, truth, a.max));
        }
    } else {
        lemma_increment_covers_true_count(lanes, a.seeds, a.max, unit_updates(front), g, 1);
        assert(covers(count, truth, a.max));
        if after.contains(e) {
            let n = choose|n: int| 0 <= n < after.len() && after[n] == e;
            assert(after[n].0 == key && covers(after[n].1, truth, a.max));
        } else {
            assert(before.contains(y));
            let t = choose|t: int| 0 <= t < before.len() && before[t] == y;
            if admissible(count, before, a) {
                assert(before[t].1 >= before[before.len() - 1].1);
                assert(after[w].0 == key && covers(after[w].1, truth, a.max));
            } else {
                lemma_admitted_entries(lanes, front, a, t);
                lemma_count_between(table, at, 1, a.max);
                let j = choose|j: int| 0 <= j < at.len() && table[#[trigger] at[j]] <= count;
                assert(at[j] == lane_index(a.seeds[j], g, table.len()));
                assert(y.1 <= table[lane_index(a.seeds[j], y.0, table.len())]);
                if before.len() == a.capacity && a.capacity > 0 {
                    assert(before[t].1 >= before[before.len() - 1].1);
                }
                assert(false);
            }
        }
    }
}

/// The count that the increment of the n-gram at place `p` of a run
/// returns, in a table that started as `lanes`.
pub open spec fn count_at(lanes: Seq<u64>, keys: Seq<NgramKey>, a: Admission, p: int) -> u64 {
    count_after_add(
        after_increments(lanes, a.seeds, unit_updates(keys.take(p)), a.max),
        lane_indices(a.seeds, keys[p], lanes.len()),
        1,
        a.max,
    )
}

/// The selection holds the n-gram `key` with a count of at least `count`,
/// or it is full and holds nothing smaller than `count`.
pub open spec fn kept_or_outdone(local: Seq<Entry>, key: NgramKey, count: u64, k: nat) -> bool {
    ||| exists|i: int| 0 <= i < local.len() && (#[trigger] local[i]).0 == key && local[i].1 >= count
    ||| (k > 0 && local.len() == k && count <= local.last().1)
}

/// A selection gathered from a run of n-grams keeps the largest: each
/// count that an n-gram was given and that passed the threshold and the
/// published watermark is held with its n-gram, at that count or a higher
/// one, unless the selection is full and holds nothing smaller.
pub proof fn lemma_admitted_keeps_largest(lanes: Seq<u64>, keys: Seq<NgramKey>, a: Admission, p: int)
    requires
        a.capacity > 0,
        0 <= p < keys.len(),
        count_at(lanes, keys, a, p) > a.threshold,
        count_at(lanes, keys, a, p) >= a.floor,
    ensures
        kept_or_outdone(
            admitted(lanes, Seq::empty(), keys, a),
            keys[p],
            count_at(lanes, keys, a, p),
            a.capacity,
        ),
    decreases keys.len(),
{
    let front = keys.drop_last();
    let g = keys.last();
    let before = admitted(lanes, Seq::empty(), front, a);
    let after = admitted(lanes, Seq::empty(), keys, a);
    let table = after_increments(lanes, a.seeds, unit_updates(front), a.max);
    let count = count_after_add(table, lane_indices(a.seeds, g, lanes.len()), 1, a.max);
    let e = (g, count);
    let k = a.capacity;
    lemma_admitted(lanes, Seq::empty(), front, a);
    lemma_inserted(before, e, k);
    if p == keys.len() - 1 {
        assert(keys.take(p) =~= front);
        assert(count_at(lanes, keys, a, p) == count);
        if admissible(count, before, a) {
            lemma_inserted_keeps(before, e, k, e);
            if after.contains(e) {
                let n = choose|n: int| 0 <= n < after.len() && after[n] == e;
                assert(after[n].0 == keys[p] && after[n].1 >= count);
            } else {
                lemma_inserted_rejects(before, e, k);
            }
        }
    } else {
        assert(keys.take(p) =~= front.take(p));
        assert(front[p] == keys[p]);
        let c = count_at(lanes, front, a, p);
        assert(count_at(lanes, keys, a, p) == c);
        lemma_admitted_keeps_largest(lanes, front, a, p);
        if admissible(count, before, a) {
            if exists|i: int| 0 <= i < before.len() && (#[trigger] before[i]).0 == keys[p] && before[i].1 >= c {
                let m = choose|m: int|
                    0 <= m < before.len() && (#[trigger] before[m]).0 == keys[p] && before[m].1 >= c;
                let x = before[m];
                lemma_inserted_keeps(before, e, k, x);
                if after.contains(x) {
                    let n = choose|n: int| 0 <= n < after.len() && after[n] == x;
                    assert(after[n].0 == keys[p] && after[n].1 >= c);
                } else {
                    assert(watermark(after, k) >= watermark(before, k));
                }
            } else {
                assert(watermark(after, k) >= watermark(before, k));
            }
        }
    }
}

/// Every entry gathered by looking n-grams up has passed the threshold and
/// the published watermark.
pub proof fn lemma_admitted_rare_passed(
    lanes: Seq<u64>,
    keys: Seq<NgramKey>,
    a: Admission,
    words: Seq<u32>,
    keep_limit: Option<u32>,
    i: int,
)
    requires
        0 <= i < admitted_rare(lanes, Seq::empty(), keys, a, words, keep_limit).len(),
    ensures
        admitted_rare(lanes, Seq::empty(), keys, a, words, keep_limit)[i].1 > a.threshold,
        admitted_rare(lanes, Seq::empty(), keys, a, words, keep_limit)[i].1 >= a.floor,
    decreases keys.len(),
{
    let front = keys.drop_last();
    let before = admitted_rare(lanes, Seq::empty(), front, a, words, keep_limit);
    let after = admitted_rare(lanes, Seq::empty(), keys, a, words, keep_limit);
    let count = max_at(lanes, lane_indices(a.seeds, keys.last(), lanes.len()));
    lemma_admitted_rare(lanes, Seq::empty(), front, a, words, keep_limit);
    if after != before {
        lemma_inserted_from(before, (keys.last(), count), a.capacity, after[i]);
    }
    if before.contains(after[i]) {
        let m = choose|m: int| 0 <= m < before.len() && before[m] == after[i];
        lemma_admitted_rare_passed(lanes, front, a, words, keep_limit, m);
    }
}

/// Without drops, a selection gathered by looking n-grams up keeps the
/// largest: an n-gram of the run whose value passes the threshold and the
/// published watermark is held, unless the selection is full and holds
/// nothing smaller.
pub proof fn lemma_admitted_rare_keeps_largest(
    lanes: Seq<u64>,
    keys: Seq<NgramKey>,
    a: Admission,
    words: Seq<u32>,
    key: NgramKey,
)
    requires
        a.capacity > 0,
        keys.contains(key),
        max_at(lanes, lane_indices(a.seeds, key, lanes.len())) > a.threshold,
        max_at(lanes, lane_indices(a.seeds, key, lanes.len())) >= a.floor,
    ensures
        kept_or_outdone(
            admitted_rare(lanes, Seq::empty(), keys, a, words, None),
            key,
            max_at(lanes, lane_indices(a.seeds, key, lanes.len())),
            a.capacity,
        ),
    decreases keys.len(),
{
    let front = keys.drop_last();
    let g = keys.last();
    let before = admitted_rare(lanes, Seq::empty(), front, a, words, None);
    let after = admitted_rare(lanes, Seq::empty(), keys, a, words, None);
    let count = max_at(lanes, lane_indices(a.seeds, g, lanes.len()));
    let value = max_at(lanes, lane_indices(a.seeds, key, lanes.len()));
    let e = (g, count);
    let k = a.capacity;
    lemma_admitted_rare(lanes, Seq::empty(), front, a, words, None);
    lemma_inserted(before, e, k);
    if g == key {
        if admissible(count, before, a) {
            lemma_inserted_keeps(before, e, k, e);
            if after.contains(e) {
                let n = choose|n: int| 0 <= n < after.len() && after[n] == e;
                assert(after[n].0 == key && after[n].1 >= value);
            } else {
                lemma_inserted_rejects(before, e, k);
            }
        }
    } else {
        let t = choose|t: int| 0 <= t < keys.len() && keys[t] == key;
        assert(front[t] == key);
        lemma_admitted_rare_keeps_largest(lanes, front, a, words, key);
        if admissible(count, before, a) {
            if exists|i: int| 0 <= i < before.len() && (#[trigger] before[i]).0 == key && before[i].1 >= value {
                let m = choose|m: int|
                    0 <= m < before.len() && (#[trigger] before[m]).0 == key && before[m].1 >= value;
                let x = before[m];
                lemma_inserted_keeps(before, e, k, x);
                if after.contains(x) {
                    let n = choose|n: int| 0 <= n < after.len() && after[n] == x;
                    assert(after[n].0 == key && after[n].1 >= value);
                } else {
                    assert(watermark(after, k) >= watermark(before, k));
                }
            } else {
                assert(watermark(after, k) >= watermark(before, k));
            }
        }
    }
}

/// One of the first `n` entries holds the n-gram `key`.
pub open spec fn held_among_first(entries: Seq<Entry>, key: NgramKey, n: int) -> bool {
    exists|m: int| 0 <= m < n && m < entries.len() && (#[trigger] entries[m]).0 == key
}

/// The n-grams of the first `n` entries.
pub open spec fn first_keys(entries: Seq<Entry>, n: int) -> Seq<NgramKey> {
    Seq::new(n as nat, |i: int| entries[i].0)
}

/// Dropping n-grams at random never puts a larger value at a rank of what
/// is reported: for the same n-grams looked up in the same table against
/// the same published watermark, once each n-gram is held once, the value
/// at every rank that the selections with and without drops both have is
/// no larger with drops than without. As the values are what the lanes
/// kept of the largest value, the count reported without drops is, at
/// every such rank, no larger than the count reported with drops.
pub proof fn lemma_drops_are_outranked(
    lanes: Seq<u64>,
    keys: Seq<NgramKey>,
    a: Admission,
    words: Seq<u32>,
    keep_limit: Option<u32>,
    i: int,
)
    requires
        a.capacity > 0,
        0 <= i < distinct(admitted_rare(lanes, Seq::empty(), keys, a, words, keep_limit)).len(),
        i < distinct(admitted_rare(lanes, Seq::empty(), keys, a, words, None)).len(),
    ensures
        distinct(admitted_rare(lanes, Seq::empty(), keys, a, words, keep_limit))[i].1 <= distinct(
            admitted_rare(lanes, Seq::empty(), keys, a, words, None),
        )[i].1,
{
    let low = admitted_rare(lanes, Seq::empty(), keys, a, words, keep_limit);
    let high = admitted_rare(lanes, Seq::empty(), keys, a, words, None);
    let d = distinct(low);
    let n = distinct(high);
    lemma_admitted_rare(lanes, Seq::empty(), keys, a, words, keep_limit);
    lemma_admitted_rare(lanes, Seq::empty(), keys, a, words, None);
    lemma_admitted_rare_values(lanes, Seq::empty(), keys, a, words, keep_limit);
    lemma_admitted_rare_values(lanes, Seq::empty(), keys, a, words, None);
    lemma_distinct(low);
    lemma_distinct(high);
    if d[i].1 > n[i].1 {
        // Each of the first entries with drops is held without drops too, at a
        // place before `i`: there are too many of them for that.
        assert forall|j: int| 0 <= j <= i implies #[trigger] held_among_first(n, d[j].0, i) by {
            let x = d[j];
            assert(low.contains(x));
            let q = choose|q: int| 0 <= q < low.len() && low[q] == x;
            lemma_admitted_rare_passed(lanes, keys, a, words, keep_limit, q);
            assert(!Seq::<Entry>::empty().contains(low[q]));
            assert(looked_up(lanes, a.seeds, x));
            assert(keys.contains(x.0));
            lemma_admitted_rare_keeps_largest(lanes, keys, a, words, x.0);
            assert(d[j].1 >= d[i].1);
            assert(high.contains(n[i]));
            let r = choose|r: int| 0 <= r < high.len() && high[r] == n[i];
            assert(high[r].1 >= high[high.len() - 1].1);
            let held = choose|held: int|
                0 <= held < high.len() && (#[trigger] high[held]).0 == x.0 && high[held].1 >= x.1;
            lemma_distinct_keeps_highest(high, held);
            let m = choose|m: int|
                0 <= m < n.len() && (#[trigger] n[m]).0 == high[held].0 && n[m].1 >= high[held].1;
            if m >= i {
                assert(n[i].1 >= n[m].1);
            }
            assert(n[m].0 == d[j].0);
        }
        let firsts = first_keys(d, i + 1);
        let places = first_keys(n, i);
        assert(firsts.no_duplicates()) by {
            assert forall|x: int, y: int|
                0 <= x < firsts.len() && 0 <= y < firsts.len() && x != y implies firsts[x] != firsts[y] by {
                if x < y {
                    assert(d[x].0 != d[y].0);
                } else {
                    assert(d[y].0 != d[x].0);
                }
            }
        }
        firsts.unique_seq_to_set();
        places.lemma_cardinality_of_set();
        vstd::seq_lib::seq_to_set_is_finite(places);
        assert(firsts.to_set().subset_of(places.to_set())) by {
            assert forall|key: NgramKey| firsts.to_set().contains(key) implies places.to_set().contains(
                key,
            ) by {
                let j = choose|j: int| 0 <= j < firsts.len() && firsts[j] == key;
                assert(held_among_first(n, d[j].0, i));
                let m = choose|m: int| 0 <= m < i && m < n.len() && (#[trigger] n[m]).0 == d[j].0;
                assert(places[m] == key);
            }
        }
        vstd::set_lib::lemma_len_subset(firsts.to_set(), places.to_set());
        assert(false);
    }
}

} // verus!
