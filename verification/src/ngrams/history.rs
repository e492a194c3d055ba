//! What a counting table holds after a whole sequence of updates, and how
//! that relates to the true count of each n-gram.

use vstd::prelude::*;
use crate::ngrams::counter::{
    NgramKey, HashSeed, lane_index, lane_indices, hits, clamp_add, clamp_sub, lanes_after_add,
    lanes_after_sub, count_after_add, max_at, lemma_hits_bounds,
};

verus! {

/// One update of a table: the n-gram and the amount.
pub type Update = (NgramKey, u64);

/// The sum of the amounts of the updates of `key`.
pub open spec fn true_count(ops: Seq<Update>, key: NgramKey) -> nat
    decreases ops.len(),
{
    if ops.len() == 0 {
        0
    } else {
        true_count(ops.drop_last(), key) + if ops.last().0 == key {
            ops.last().1 as nat
        } else {
            0nat
        }
    }
}

/// The sum of the amounts that the updates applied to lane `i`, each
/// update once for every one of its hashes that falls on the lane.
pub open spec fn total_at(seeds: Seq<HashSeed>, len: nat, ops: Seq<Update>, i: int) -> nat
    decreases ops.len(),
{
    if ops.len() == 0 {
        0
    } else {
        total_at(seeds, len, ops.drop_last(), i) + ops.last().1 as nat * hits(
            lane_indices(seeds, ops.last().0, len),
            i,
        )
    }
}

/// The lanes after the increments `ops`, applied in order.
pub open spec fn after_increments(
    lanes: Seq<u64>,
    seeds: Seq<HashSeed>,
    ops: Seq<Update>,
    max: u64,
) -> Seq<u64>
    decreases ops.len(),
{
    if ops.len() == 0 {
        lanes
    } else {
        let before = after_increments(lanes, seeds, ops.drop_last(), max);
        lanes_after_add(
            before,
            lane_indices(seeds, ops.last().0, lanes.len()),
            ops.last().1,
            max,
        )
    }
}

/// The lanes after the decrements `ops`, applied in order.
pub open spec fn after_decrements(lanes: Seq<u64>, seeds: Seq<HashSeed>, ops: Seq<Update>) -> Seq<
    u64,
>
    decreases ops.len(),
{
    if ops.len() == 0 {
        lanes
    } else {
        let before = after_decrements(lanes, seeds, ops.drop_last());
        lanes_after_sub(before, lane_indices(seeds, ops.last().0, lanes.len()), ops.last().1)
    }
}

/// Two tables over the same input, merged lane by lane: what the second
/// gained over `initial` is added to the first.
pub open spec fn merged(a: Seq<u64>, b: Seq<u64>, initial: u64, max: u64) -> Seq<u64> {
    Seq::new(a.len(), |i: int| clamp_add(a[i], (b[i] - initial) as nat, max))
}

/// After any increments each lane holds what it started with and the total
/// applied to it, pinned at `max`.
pub proof fn lemma_after_increments(
    lanes: Seq<u64>,
    seeds: Seq<HashSeed>,
    ops: Seq<Update>,
    max: u64,
)
    requires
        forall|i: int| 0 <= i < lanes.len() ==> #[trigger] lanes[i] <= max,
    ensures
        after_increments(lanes, seeds, ops, max).len() == lanes.len(),
        forall|i: int|
            0 <= i < lanes.len() ==> #[trigger] after_increments(lanes, seeds, ops, max)[i]
                == clamp_add(lanes[i], total_at(seeds, lanes.len(), ops, i), max),
    decreases ops.len(),
{
    if ops.len() > 0 {
        lemma_after_increments(lanes, seeds, ops.drop_last(), max);
    }
}

/// After any decrements each lane holds what it started with less the total
/// applied to it, pinned at zero.
pub proof fn lemma_after_decrements(lanes: Seq<u64>, seeds: Seq<HashSeed>, ops: Seq<Update>)
    ensures
        after_decrements(lanes, seeds, ops).len() == lanes.len(),
        forall|i: int|
            0 <= i < lanes.len() ==> #[trigger] after_decrements(lanes, seeds, ops)[i] == clamp_sub(
                lanes[i],
                total_at(seeds, lanes.len(), ops, i),
            ),
    decreases ops.len(),
{
    if ops.len() > 0 {
        lemma_after_decrements(lanes, seeds, ops.drop_last());
    }
}

/// Each lane of a key took at least the key's own updates.
pub proof fn lemma_total_covers_true_count(
    seeds: Seq<HashSeed>,
    len: nat,
    ops: Seq<Update>,
    key: NgramKey,
    j: int,
)
    requires
        0 <= j < seeds.len(),
    ensures
        total_at(seeds, len, ops, lane_index(seeds[j], key, len)) >= true_count(ops, key),
    decreases ops.len(),
{
    if ops.len() > 0 {
        lemma_total_covers_true_count(seeds, len, ops.drop_last(), key, j);
        let i = lane_index(seeds[j], key, len);
        let last = ops.last();
        let at = lane_indices(seeds, last.0, len);
        if last.0 == key {
            assert(at[j] == i);
            lemma_hits_bounds(at, i);
            assert(last.1 as nat * hits(at, i) >= last.1 as nat) by (nonlinear_arith)
                requires
                    hits(at, i) >= 1,
            ;
        }
    }
}

/// The total applied by two runs of updates, one after the other, is the
/// sum of their totals.
pub proof fn lemma_total_at_concat(
    seeds: Seq<HashSeed>,
    len: nat,
    first: Seq<Update>,
    second: Seq<Update>,
    i: int,
)
    ensures
        total_at(seeds, len, first + second, i) == total_at(seeds, len, first, i) + total_at(
            seeds,
            len,
            second,
            i,
        ),
    decreases second.len(),
{
    if second.len() == 0 {
        assert(first + second =~= first);
    } else {
        assert((first + second).drop_last() =~= first + second.drop_last());
        lemma_total_at_concat(seeds, len, first, second.drop_last(), i);
    }
}

/// The true count over two runs of updates is the sum of the true counts.
pub proof fn lemma_true_count_concat(first: Seq<Update>, second: Seq<Update>, key: NgramKey)
    ensures
        true_count(first + second, key) == true_count(first, key) + true_count(second, key),
    decreases second.len(),
{
    if second.len() == 0 {
        assert(first + second =~= first);
    } else {
        assert((first + second).drop_last() =~= first + second.drop_last());
        lemma_true_count_concat(first, second.drop_last(), key);
    }
}

/// The least of the values left by the additions at `at` is at least
/// `bound`, if a single addition already lifts each of those lanes to it.
proof fn lemma_count_after_add_lower(
    lanes: Seq<u64>,
    at: Seq<int>,
    delta: u64,
    max: u64,
    bound: int,
)
    requires
        bound <= max,
        forall|j: int| 0 <= j < at.len() ==> clamp_add(lanes[#[trigger] at[j]], delta as nat, max) >= bound,
    ensures
        count_after_add(lanes, at, delta, max) >= bound,
    decreases at.len(),
{
    if at.len() > 0 {
        lemma_count_after_add_lower(lanes, at.drop_last(), delta, max, bound);
        let last = at.last();
        assert(at[at.len() - 1] == last);
        lemma_hits_bounds(at, last);
        assert(delta as nat * hits(at, last) >= delta as nat) by (nonlinear_arith)
            requires
                hits(at, last) >= 1,
        ;
    }
}

/// An increment never reports less than the true count: after any
/// increments on a table, the value that the next increment of `key`
/// returns is at least the sum of all the amounts added for `key`, this
/// one included, or it is the width's maximum.
pub proof fn lemma_increment_covers_true_count(
    lanes: Seq<u64>,
    seeds: Seq<HashSeed>,
    max: u64,
    ops: Seq<Update>,
    key: NgramKey,
    delta: u64,
)
    requires
        lanes.len() > 0,
        forall|i: int| 0 <= i < lanes.len() ==> #[trigger] lanes[i] <= max,
    ensures
        ({
            let now = after_increments(lanes, seeds, ops, max);
            let count = count_after_add(now, lane_indices(seeds, key, lanes.len()), delta, max);
            count == max || count >= true_count(ops.push((key, delta)), key)
        }),
{
    let len = lanes.len();
    let now = after_increments(lanes, seeds, ops, max);
    let at = lane_indices(seeds, key, len);
    let all = ops.push((key, delta));
    assert(all.drop_last() =~= ops);
    let truth = true_count(all, key);
    assert(truth == true_count(ops, key) + delta);
    lemma_after_increments(lanes, seeds, ops, max);
    if truth <= max {
        assert forall|j: int| 0 <= j < at.len() implies clamp_add(
            now[#[trigger] at[j]],
            delta as nat,
            max,
        ) >= truth by {
            lemma_total_covers_true_count(seeds, len, ops, key, j);
        }
        lemma_count_after_add_lower(now, at, delta, max, truth as int);
    } else {
        assert forall|j: int| 0 <= j < at.len() implies clamp_add(
            now[#[trigger] at[j]],
            delta as nat,
            max,
        ) >= max by {
            lemma_total_covers_true_count(seeds, len, ops, key, j);
        }
        lemma_count_after_add_lower(now, at, delta, max, max as int);
        lemma_count_after_add_upper(now, at, delta, max);
    }
}

/// No increment reports more than the width's maximum.
pub proof fn lemma_count_after_add_upper(lanes: Seq<u64>, at: Seq<int>, delta: u64, max: u64)
    ensures
        count_after_add(lanes, at, delta, max) <= max,
    decreases at.len(),
{
    if at.len() > 0 {
        lemma_count_after_add_upper(lanes, at.drop_last(), delta, max);
    }
}

/// The greatest lane of a key is the value of one of its lanes and no
/// less than any of them.
pub proof fn lemma_max_at(lanes: Seq<u64>, at: Seq<int>)
    ensures
        forall|j: int| 0 <= j < at.len() ==> lanes[#[trigger] at[j]] <= max_at(lanes, at),
        at.len() > 0 ==> exists|j: int| 0 <= j < at.len() && lanes[#[trigger] at[j]] == max_at(lanes, at),
    decreases at.len(),
{
    if at.len() > 0 {
        let front = at.drop_last();
        lemma_max_at(lanes, front);
        assert forall|j: int| 0 <= j < at.len() implies lanes[#[trigger] at[j]] <= max_at(
            lanes,
            at,
        ) by {
            if j < front.len() {
                assert(front[j] == at[j]);
            }
        }
        if lanes[at.last()] > max_at(lanes, front) || front.len() == 0 {
            assert(lanes[at[at.len() - 1]] == max_at(lanes, at));
        } else {
            let j = choose|j: int| 0 <= j < front.len() && lanes[#[trigger] front[j]] == max_at(lanes, front);
            assert(at[j] == front[j]);
        }
    }
}

/// After decrements from the width's maximum, the greatest lane of a key
/// is never above the maximum less the key's true count.
pub proof fn lemma_max_count_bounded_by_inverse(
    len: nat,
    seeds: Seq<HashSeed>,
    max: u64,
    ops: Seq<Update>,
    key: NgramKey,
)
    requires
        len > 0,
        seeds.len() > 0,
    ensures
        max_at(
            after_decrements(Seq::new(len, |i: int| max), seeds, ops),
            lane_indices(seeds, key, len),
        ) <= clamp_sub(max, true_count(ops, key)),
{
    let start = Seq::new(len, |i: int| max);
    let now = after_decrements(start, seeds, ops);
    let at = lane_indices(seeds, key, len);
    lemma_after_decrements(start, seeds, ops);
    lemma_max_at(now, at);
    let j = choose|j: int| 0 <= j < at.len() && now[#[trigger] at[j]] == max_at(now, at);
    lemma_total_covers_true_count(seeds, len, ops, key, j);
}

/// After decrements from the width's maximum, the greatest lane of a key
/// is exactly the maximum less the key's true count, provided that one of
/// the key's lanes took the key's own decrements and nothing else: no
/// other n-gram's hash fell on it, nor a second hash of the key itself.
/// Where the true count does not exceed the maximum, no such lane was
/// pinned at zero and the result is `max - true_count`.
pub proof fn lemma_max_count_is_inverse(
    len: nat,
    seeds: Seq<HashSeed>,
    max: u64,
    ops: Seq<Update>,
    key: NgramKey,
    j: int,
)
    requires
        len > 0,
        0 <= j < seeds.len(),
        total_at(seeds, len, ops, lane_index(seeds[j], key, len)) == true_count(ops, key),
    ensures
        max_at(
            after_decrements(Seq::new(len, |i: int| max), seeds, ops),
            lane_indices(seeds, key, len),
        ) == clamp_sub(max, true_count(ops, key)),
        true_count(ops, key) <= max ==> max_at(
            after_decrements(Seq::new(len, |i: int| max), seeds, ops),
            lane_indices(seeds, key, len),
        ) == max - true_count(ops, key),
{
    let start = Seq::new(len, |i: int| max);
    let now = after_decrements(start, seeds, ops);
    let at = lane_indices(seeds, key, len);
    lemma_after_decrements(start, seeds, ops);
    lemma_max_at(now, at);
    lemma_max_count_bounded_by_inverse(len, seeds, max, ops, key);
    assert(now[at[j]] == clamp_sub(max, true_count(ops, key)));
}

/// Counting one run of updates after another gives the table that merging
/// the two runs' own tables gives: lane by lane, what the second run added
/// to the initial value is added to the first run's lane.
pub proof fn lemma_concatenation_merges(
    len: nat,
    initial: u64,
    seeds: Seq<HashSeed>,
    max: u64,
    first: Seq<Update>,
    second: Seq<Update>,
)
    requires
        initial <= max,
    ensures
        ({
            let start = Seq::new(len, |i: int| initial);
            after_increments(start, seeds, first + second, max) == merged(
                after_increments(start, seeds, first, max),
                after_increments(start, seeds, second, max),
                initial,
                max,
            )
        }),
{
    let start = Seq::new(len, |i: int| initial);
    let both = after_increments(start, seeds, first + second, max);
    let a = after_increments(start, seeds, first, max);
    let b = after_increments(start, seeds, second, max);
    lemma_after_increments(start, seeds, first + second, max);
    lemma_after_increments(start, seeds, first, max);
    lemma_after_increments(start, seeds, second, max);
    assert forall|i: int| 0 <= i < len implies both[i] == #[trigger] merged(a, b, initial, max)[i] by {
        lemma_total_at_concat(seeds, len, first, second, i);
    }
    assert(both =~= merged(a, b, initial, max));
}

/// The order of two runs of updates does not matter to the table.
pub proof fn lemma_increments_commute(
    lanes: Seq<u64>,
    seeds: Seq<HashSeed>,
    max: u64,
    first: Seq<Update>,
    second: Seq<Update>,
)
    requires
        forall|i: int| 0 <= i < lanes.len() ==> #[trigger] lanes[i] <= max,
    ensures
        after_increments(lanes, seeds, first + second, max) == after_increments(
            lanes,
            seeds,
            second + first,
            max,
        ),
{
    lemma_after_increments(lanes, seeds, first + second, max);
    lemma_after_increments(lanes, seeds, second + first, max);
    assert forall|i: int| 0 <= i < lanes.len() implies after_increments(
        lanes,
        seeds,
        first + second,
        max,
    )[i] == after_increments(lanes, seeds, second + first, max)[i] by {
        lemma_total_at_concat(seeds, lanes.len(), first, second, i);
        lemma_total_at_concat(seeds, lanes.len(), second, first, i);
    }
    assert(after_increments(lanes, seeds, first + second, max) =~= after_increments(
        lanes,
        seeds,
        second + first,
        max,
    ));
}

/// Increments applied one run after another are the increments of the
/// concatenation, and no increment changes the number of lanes.
pub proof fn lemma_after_increments_concat(
    lanes: Seq<u64>,
    seeds: Seq<HashSeed>,
    first: Seq<Update>,
    second: Seq<Update>,
    max: u64,
)
    ensures
        after_increments(lanes, seeds, first + second, max) == after_increments(
            after_increments(lanes, seeds, first, max),
            seeds,
            second,
            max,
        ),
        after_increments(lanes, seeds, first, max).len() == lanes.len(),
    decreases second.len(),
{
    lemma_after_increments_len(lanes, seeds, first, max);
    if second.len() == 0 {
        assert(first + second =~= first);
    } else {
        assert((first + second).drop_last() =~= first + second.drop_last());
        lemma_after_increments_concat(lanes, seeds, first, second.drop_last(), max);
    }
}

/// Decrements applied one run after another are the decrements of the
/// concatenation, and no decrement changes the number of lanes.
pub proof fn lemma_after_decrements_concat(
    lanes: Seq<u64>,
    seeds: Seq<HashSeed>,
    first: Seq<Update>,
    second: Seq<Update>,
)
    ensures
        after_decrements(lanes, seeds, first + second) == after_decrements(
            after_decrements(lanes, seeds, first),
            seeds,
            second,
        ),
        after_decrements(lanes, seeds, first).len() == lanes.len(),
    decreases second.len(),
{
    lemma_after_decrements_len(lanes, seeds, first);
    if second.len() == 0 {
        assert(first + second =~= first);
    } else {
        assert((first + second).drop_last() =~= first + second.drop_last());
        lemma_after_decrements_concat(lanes, seeds, first, second.drop_last());
    }
}

/// The number of lanes does not change under increments.
pub proof fn lemma_after_increments_len(
    lanes: Seq<u64>,
    seeds: Seq<HashSeed>,
    ops: Seq<Update>,
    max: u64,
)
    ensures
        after_increments(lanes, seeds, ops, max).len() == lanes.len(),
    decreases ops.len(),
{
    if ops.len() > 0 {
        lemma_after_increments_len(lanes, seeds, ops.drop_last(), max);
    }
}

/// The number of lanes does not change under decrements.
pub proof fn lemma_after_decrements_len(lanes: Seq<u64>, seeds: Seq<HashSeed>, ops: Seq<Update>)
    ensures
        after_decrements(lanes, seeds, ops).len() == lanes.len(),
    decreases ops.len(),
{
    if ops.len() > 0 {
        lemma_after_decrements_len(lanes, seeds, ops.drop_last());
    }
}

/// A prefix of the positions hits no lane more often than all of them.
pub proof fn lemma_hits_prefix(at: Seq<int>, j: int, i: int)
    requires
        0 <= j <= at.len(),
    ensures
        hits(at.take(j), i) <= hits(at, i),
    decreases at.len() - j,
{
    if j < at.len() {
        lemma_hits_prefix(at, j + 1, i);
        assert(at.take(j + 1).drop_last() =~= at.take(j));
    } else {
        assert(at.take(j) =~= at);
    }
}

/// What an increment returns lies between the lanes of its n-gram before
/// and after: it is no less than the least of them before, and no more
/// than any of them after.
pub proof fn lemma_count_between(lanes: Seq<u64>, at: Seq<int>, delta: u64, max: u64)
    requires
        forall|i: int| 0 <= i < lanes.len() ==> #[trigger] lanes[i] <= max,
        forall|j: int| 0 <= j < at.len() ==> 0 <= #[trigger] at[j] < lanes.len(),
    ensures
        forall|j: int|
            0 <= j < at.len() ==> count_after_add(lanes, at, delta, max) <= lanes_after_add(
                lanes,
                at,
                delta,
                max,
            )[#[trigger] at[j]],
        at.len() > 0 ==> exists|j: int|
            0 <= j < at.len() && lanes[#[trigger] at[j]] <= count_after_add(lanes, at, delta, max),
    decreases at.len(),
{
    if at.len() > 0 {
        let front = at.drop_last();
        let last = at.last();
        assert(at[at.len() - 1] == last);
        assert forall|j: int| 0 <= j < front.len() implies 0 <= #[trigger] front[j] < lanes.len() by {
            assert(front[j] == at[j]);
        }
        lemma_count_between(lanes, front, delta, max);
        let count = count_after_add(lanes, at, delta, max);
        let before = count_after_add(lanes, front, delta, max);
        let here = clamp_add(lanes[last], delta as nat * hits(at, last), max);
        assert forall|j: int| 0 <= j < at.len() implies count <= lanes_after_add(
            lanes,
            at,
            delta,
            max,
        )[#[trigger] at[j]] by {
            if j < front.len() {
                assert(front[j] == at[j]);
                assert(before <= lanes_after_add(lanes, front, delta, max)[front[j]]);
                assert(front =~= at.take(at.len() - 1));
                lemma_hits_prefix(at, at.len() - 1, at[j]);
                assert(delta as nat * hits(front, at[j]) <= delta as nat * hits(at, at[j])) by (nonlinear_arith)
                    requires
                        hits(front, at[j]) <= hits(at, at[j]),
                ;
            }
        }
        if front.len() > 0 && before <= here {
            let j = choose|j: int| 0 <= j < front.len() && lanes[#[trigger] front[j]] <= before;
            assert(at[j] == front[j]);
        }
    }
}

} // verus!
