//! The counting table: a fixed array of saturating counters addressed by
//! several seeded hashes of an n-gram.

use vstd::prelude::*;
use std::collections::VecDeque;
use rand::{Rng, SeedableRng};
use rand::rngs::StdRng;
use crate::ngrams::lanes::{Lanes, Width};

verus! {

/// An n-gram as the contracts see it: its tokens, each a sequence of
/// characters.
pub type NgramKey = Seq<Seq<char>>;

/// The four sub-keys that select one hash function.
#[derive(Clone, Copy, Debug, PartialEq, Eq, Structural)]
pub struct HashSeed {
    pub k0: u64,
    pub k1: u64,
    pub k2: u64,
    pub k3: u64,
}

/// Why a counting table could not be made.
#[derive(Clone, Copy, Debug, PartialEq, Eq, Structural)]
pub enum CounterError {
    /// No hash function was asked for.
    NoHashes,
    /// The byte budget holds no lane of the width asked for.
    NoLanes,
    /// The initial value does not fit a lane of the width asked for.
    InitialTooLarge,
    /// The sub-keys of that many hash functions cannot be counted.
    TooManyHashes,
}

/// The hash that `ahash` computes for `key` under the sub-keys `k0` to `k3`.
pub uninterp spec fn key_hash(k0: u64, k1: u64, k2: u64, k3: u64, key: Seq<Seq<char>>) -> u64;

/// The words that the standard generator of `rand` yields when it is seeded
/// with `seed` and asked to fill `count` words.
pub uninterp spec fn seeded_words(seed: u64, count: nat) -> Seq<u64>;

/// Calls `ahash::RandomState::with_seeds` and `hash_one` on the tokens of
/// `key`. Trusted: states that the result is a function of the four
/// sub-keys and of the tokens alone, as the crate documents for states
/// made from the same four keys.
#[verifier::external_body]
fn hash_key(seed: &HashSeed, key: &VecDeque<String>) -> (h: u64)
    ensures
        h == key_hash(seed.k0, seed.k1, seed.k2, seed.k3, key.deep_view()),
{
    ahash::RandomState::with_seeds(seed.k0, seed.k1, seed.k2, seed.k3).hash_one(key)
}

/// Calls `StdRng::seed_from_u64` and `Rng::fill` of `rand`. Trusted: states
/// that the words written are a function of the seed and of the number of
/// words, and that this number does not change.
#[verifier::external_body]
fn fill_seeded(seed: u64, words: &mut Vec<u64>)
    ensures
        final(words)@ == seeded_words(seed, old(words)@.len()),
        final(words)@.len() == old(words)@.len(),
{
    StdRng::seed_from_u64(seed).fill(&mut words[..]);
}

/// Calls `StdRng::from_entropy` and `Rng::fill` of `rand`. Trusted: states
/// only that the number of words does not change; the words come from the
/// system's entropy.
#[verifier::external_body]
fn fill_from_entropy(words: &mut Vec<u64>)
    ensures
        final(words)@.len() == old(words)@.len(),
{
    StdRng::from_entropy().fill(&mut words[..]);
}

/// The hash seeds that a run of words yields, four words to a seed.
pub open spec fn seeds_of(words: Seq<u64>) -> Seq<HashSeed> {
    Seq::new(
        (words.len() / 4) as nat,
        |j: int|
            HashSeed {
                k0: words[4 * j],
                k1: words[4 * j + 1],
                k2: words[4 * j + 2],
                k3: words[4 * j + 3],
            },
    )
}

/// The lane that one hash function gives `key` in a table of `len` lanes.
pub open spec fn lane_index(seed: HashSeed, key: NgramKey, len: nat) -> int {
    (key_hash(seed.k0, seed.k1, seed.k2, seed.k3, key) as int) % (len as int)
}

/// The lanes of `key`, one for each hash function, in their order.
pub open spec fn lane_indices(seeds: Seq<HashSeed>, key: NgramKey, len: nat) -> Seq<int> {
    Seq::new(seeds.len(), |j: int| lane_index(seeds[j], key, len))
}

/// How many of the positions in `at` are the lane `i`.
pub open spec fn hits(at: Seq<int>, i: int) -> nat
    decreases at.len(),
{
    if at.len() == 0 {
        0
    } else {
        hits(at.drop_last(), i) + if at.last() == i {
            1nat
        } else {
            0nat
        }
    }
}

/// `v` raised by `amount`, pinned at `max`.
pub open spec fn clamp_add(v: u64, amount: nat, max: u64) -> u64 {
    if v + amount >= max {
        max
    } else {
        (v + amount) as u64
    }
}

/// `v` lowered by `amount`, pinned at zero.
pub open spec fn clamp_sub(v: u64, amount: nat) -> u64 {
    if amount >= v {
        0
    } else {
        (v - amount) as u64
    }
}

/// The lanes after `delta` was added once for each position in `at`.
pub open spec fn lanes_after_add(lanes: Seq<u64>, at: Seq<int>, delta: u64, max: u64) -> Seq<u64> {
    Seq::new(lanes.len(), |i: int| clamp_add(lanes[i], delta as nat * hits(at, i), max))
}

/// The lanes after `delta` was taken once for each position in `at`.
pub open spec fn lanes_after_sub(lanes: Seq<u64>, at: Seq<int>, delta: u64) -> Seq<u64> {
    Seq::new(lanes.len(), |i: int| clamp_sub(lanes[i], delta as nat * hits(at, i)))
}

/// The least of the values that the additions at the positions `at` left
/// behind, each taken right after its own addition; `max` if `at` is
/// empty.
pub open spec fn count_after_add(lanes: Seq<u64>, at: Seq<int>, delta: u64, max: u64) -> u64
    decreases at.len(),
{
    if at.len() == 0 {
        max
    } else {
        let before = count_after_add(lanes, at.drop_last(), delta, max);
        let here = clamp_add(lanes[at.last()], delta as nat * hits(at, at.last()), max);
        if here < before {
            here
        } else {
            before
        }
    }
}

/// The greatest of the lanes at the positions `at`; zero if `at` is empty.
pub open spec fn max_at(lanes: Seq<u64>, at: Seq<int>) -> u64
    decreases at.len(),
{
    if at.len() == 0 {
        0
    } else {
        let before = max_at(lanes, at.drop_last());
        if lanes[at.last()] > before {
            lanes[at.last()]
        } else {
            before
        }
    }
}

/// How many lanes differ from `initial`.
pub open spec fn changed_lanes(lanes: Seq<u64>, initial: u64) -> nat
    decreases lanes.len(),
{
    if lanes.len() == 0 {
        0
    } else {
        changed_lanes(lanes.drop_last(), initial) + if lanes.last() != initial {
            1nat
        } else {
            0nat
        }
    }
}

/// Adding in two steps is adding the sum.
pub proof fn lemma_clamp_add_twice(v: u64, a: nat, b: nat, max: u64)
    requires
        v <= max,
    ensures
        clamp_add(clamp_add(v, a, max), b, max) == clamp_add(v, a + b, max),
{
}

/// Taking in two steps is taking the sum.
pub proof fn lemma_clamp_sub_twice(v: u64, a: nat, b: nat)
    ensures
        clamp_sub(clamp_sub(v, a), b) == clamp_sub(v, a + b),
{
}

/// One more position adds one hit to its lane and none to the others.
pub proof fn lemma_hits_push(at: Seq<int>, p: int, i: int)
    ensures
        hits(at.push(p), i) == hits(at, i) + if p == i {
            1nat
        } else {
            0nat
        },
{
    assert(at.push(p).drop_last() =~= at);
}

/// No position, no hit.
pub proof fn lemma_hits_bounds(at: Seq<int>, i: int)
    ensures
        hits(at, i) <= at.len(),
        hits(at, i) > 0 <==> at.contains(i),
    decreases at.len(),
{
    if at.len() > 0 {
        let front = at.drop_last();
        lemma_hits_bounds(front, i);
        if at.contains(i) && at.last() != i {
            let j = choose|j: int| 0 <= j < at.len() && at[j] == i;
            assert(front[j] == i);
        }
        if front.contains(i) {
            let j = choose|j: int| 0 <= j < front.len() && front[j] == i;
            assert(at[j] == i);
        }
        if at.last() == i {
            assert(at[at.len() - 1] == i);
        }
    }
}

/// A counting table: `L` lanes of one width, `k` hash seeds, and the value
/// every lane started from.
pub struct NgramCounter {
    lanes: Lanes,
    seeds: Vec<HashSeed>,
    initial: u64,
}

/// The number of lanes that a byte budget pays for.
pub open spec fn lanes_in_budget(byte_budget: usize, width: Width) -> nat {
    (byte_budget / width.bytes_spec()) as nat
}

/// The reason, if there is one, for which no table can be made with the
/// given dimensions.
pub open spec fn dimension_error(
    byte_budget: usize,
    num_hashes: nat,
    width: Width,
    initial: u64,
) -> Option<CounterError> {
    if num_hashes == 0 {
        Some(CounterError::NoHashes)
    } else if lanes_in_budget(byte_budget, width) == 0 {
        Some(CounterError::NoLanes)
    } else if initial > width.max_spec() {
        Some(CounterError::InitialTooLarge)
    } else {
        None
    }
}

impl NgramCounter {
    /// The values of the lanes.
    pub closed spec fn lanes(&self) -> Seq<u64> {
        self.lanes.values()
    }

    /// The hash seeds, one for each hash function.
    pub closed spec fn seeds(&self) -> Seq<HashSeed> {
        self.seeds@
    }

    /// The width of the lanes.
    pub closed spec fn width(&self) -> Width {
        self.lanes.width()
    }

    /// The value every lane started from.
    pub closed spec fn initial(&self) -> u64 {
        self.initial
    }

    /// The largest value a lane holds.
    pub open spec fn max(&self) -> u64 {
        self.width().max_spec()
    }

    /// The lanes of `key` in this table.
    pub open spec fn lanes_of(&self, key: NgramKey) -> Seq<int> {
        lane_indices(self.seeds(), key, self.lanes().len())
    }

    /// The table has a lane and a hash function, and no value exceeds the
    /// width.
    pub closed spec fn wf(&self) -> bool {
        &&& self.lanes.values().len() > 0
        &&& self.seeds@.len() > 0
        &&& self.initial <= self.lanes.width().max_spec()
    }

    /// What well-formedness means for the public view of a table.
    pub proof fn lemma_wf(&self)
        requires
            self.wf(),
        ensures
            self.lanes().len() > 0,
            self.seeds().len() > 0,
            self.initial() <= self.max(),
            forall|i: int| 0 <= i < self.lanes().len() ==> #[trigger] self.lanes()[i] <= self.max(),
    {
        self.lanes.lemma_bounded();
    }

    /// A table with the given hash seeds, `byte_budget / width` lanes, and
    /// every lane at `initial`.
    pub fn with_seeds(byte_budget: usize, seeds: Vec<HashSeed>, width: Width, initial: u64) -> (r:
        Result<NgramCounter, CounterError>)
        ensures
            match r {
                Ok(c) => {
                    &&& dimension_error(byte_budget, seeds@.len(), width, initial) is None
                    &&& c.wf()
                    &&& c.seeds() == seeds@
                    &&& c.width() == width
                    &&& c.initial() == initial
                    &&& c.lanes() == Seq::new(lanes_in_budget(byte_budget, width), |i: int| initial)
                },
                Err(e) => dimension_error(byte_budget, seeds@.len(), width, initial) == Some(e),
            },
    {
        let len = byte_budget / width.bytes();
        if seeds.len() == 0 {
            return Err(CounterError::NoHashes);
        }
        if len == 0 {
            return Err(CounterError::NoLanes);
        }
        if initial > width.max() {
            return Err(CounterError::InitialTooLarge);
        }
        let lanes = Lanes::filled(width, len, initial);
        Ok(NgramCounter { lanes, seeds, initial })
    }

    /// A table with `num_hashes` hash functions whose seeds are drawn from
    /// `seed`, or from the system's entropy where there is none.
    pub fn new(
        byte_budget: usize,
        num_hashes: usize,
        seed: Option<u64>,
        width: Width,
        initial: u64,
    ) -> (r: Result<NgramCounter, CounterError>)
        ensures
            match r {
                Ok(c) => {
                    &&& dimension_error(byte_budget, num_hashes as nat, width, initial) is None
                    &&& 4 * num_hashes <= usize::MAX
                    &&& c.wf()
                    &&& c.seeds().len() == num_hashes
                    &&& seed matches Some(s) ==> c.seeds() == seeds_of(
                        seeded_words(s, 4 * num_hashes as nat),
                    )
                    &&& c.width() == width
                    &&& c.initial() == initial
                    &&& c.lanes() == Seq::new(lanes_in_budget(byte_budget, width), |i: int| initial)
                },
                Err(e) => {
                    if 4 * num_hashes > usize::MAX {
                        e == CounterError::TooManyHashes
                    } else {
                        dimension_error(byte_budget, num_hashes as nat, width, initial) == Some(e)
                    }
                },
            },
    {
        let count = match num_hashes.checked_mul(4) {
            Some(count) => count,
            None => {
                return Err(CounterError::TooManyHashes);
            },
        };
        let mut words: Vec<u64> = vec![0u64; count];
        match seed {
            Some(s) => fill_seeded(s, &mut words),
            None => fill_from_entropy(&mut words),
        }
        let mut seeds: Vec<HashSeed> = Vec::new();
        let mut j: usize = 0;
        while j < num_hashes
            invariant
                j <= num_hashes,
                4 * num_hashes <= usize::MAX,
                words@.len() == 4 * num_hashes,
                seeds@ == seeds_of(words@).take(j as int),
            decreases num_hashes - j,
        {
            let s = HashSeed {
                k0: words[4 * j],
                k1: words[4 * j + 1],
                k2: words[4 * j + 2],
                k3: words[4 * j + 3],
            };
            seeds.push(s);
            assert(seeds@ =~= seeds_of(words@).take(j + 1));
            j += 1;
        }
        assert(seeds@ =~= seeds_of(words@));
        NgramCounter::with_seeds(byte_budget, seeds, width, initial)
    }

    /// The number of lanes.
    pub fn len(&self) -> (n: usize)
        ensures
            n == self.lanes().len(),
    {
        self.lanes.len()
    }

    /// The number of hash functions.
    pub fn num_hashes(&self) -> (k: usize)
        ensures
            k == self.seeds().len(),
    {
        self.seeds.len()
    }

    /// The largest value a lane of this table holds.
    pub fn max_value(&self) -> (m: u64)
        ensures
            m == self.max(),
    {
        match &self.lanes {
            Lanes::W8(_) => Width::W8.max(),
            Lanes::W32(_) => Width::W32.max(),
            Lanes::W64(_) => Width::W64.max(),
        }
    }

    /// The lane that hash function `j` gives `key`.
    fn lane(&self, j: usize, key: &VecDeque<String>) -> (i: usize)
        requires
            self.wf(),
            j < self.seeds().len(),
        ensures
            i == self.lanes_of(key.deep_view())[j as int],
            i < self.lanes().len(),
    {
        let h = hash_key(&self.seeds[j], key);
        let len = self.lanes.len();
        (h % (len as u64)) as usize
    }

    /// Adds `delta` to each lane of `key`, pinning at the width's maximum,
    /// and returns the least of the new values.
    pub fn increment(&mut self, key: &VecDeque<String>, delta: u64) -> (count: u64)
        requires
            old(self).wf(),
        ensures
            final(self).wf(),
            final(self).seeds() == old(self).seeds(),
            final(self).width() == old(self).width(),
            final(self).initial() == old(self).initial(),
            final(self).lanes() == lanes_after_add(
                old(self).lanes(),
                old(self).lanes_of(key.deep_view()),
                delta,
                old(self).max(),
            ),
            count == count_after_add(
                old(self).lanes(),
                old(self).lanes_of(key.deep_view()),
                delta,
                old(self).max(),
            ),
    {
        let max = self.max_value();
        let k = self.seeds.len();
        let ghost before = self.lanes();
        let ghost at = self.lanes_of(key.deep_view());
        let mut least = max;
        let mut j: usize = 0;
        proof {
            self.lanes.lemma_bounded();
            assert(at.take(0) =~= Seq::<int>::empty());
            assert forall|x: int| 0 <= x < before.len() implies before[x] == #[trigger] lanes_after_add(
                before,
                at.take(0),
                delta,
                max,
            )[x] by {
                assert(hits(at.take(0), x) == 0);
                assert(delta as nat * 0 == 0);
            }
            assert(self.lanes() =~= lanes_after_add(before, at.take(0), delta, max));
        }
        while j < k
            invariant
                j <= k,
                k == self.seeds().len(),
                self.wf(),
                self.seeds() == old(self).seeds(),
                self.width() == old(self).width(),
                self.initial() == old(self).initial(),
                max == old(self).max(),
                before == old(self).lanes(),
                at == old(self).lanes_of(key.deep_view()),
                at.len() == k,
                forall|i: int| 0 <= i < before.len() ==> #[trigger] before[i] <= max,
                self.lanes() == lanes_after_add(before, at.take(j as int), delta, max),
                least == count_after_add(before, at.take(j as int), delta, max),
            decreases k - j,
        {
            let i = self.lane(j, key);
            let cur = self.lanes.get(i);
            let new = if delta > max - cur {
                max
            } else {
                cur + delta
            };
            self.lanes.set(i, new);
            if new < least {
                least = new;
            }
            proof {
                let done = at.take(j as int);
                let next = at.take(j + 1);
                assert(next =~= done.push(i as int));
                assert(next.drop_last() =~= done);
                assert(next.last() == i);
                lemma_clamp_add_twice(before[i as int], delta as nat * hits(done, i as int), delta as nat, max);
                assert(delta as nat * hits(done, i as int) + delta as nat == delta as nat * (hits(
                    done,
                    i as int,
                ) + 1)) by (nonlinear_arith);
                assert forall|x: int| 0 <= x < before.len() implies #[trigger] self.lanes()[x]
                    == lanes_after_add(before, next, delta, max)[x] by {
                    lemma_hits_push(done, i as int, x);
                }
                assert(self.lanes() =~= lanes_after_add(before, next, delta, max));
            }
            j += 1;
        }
        assert(at.take(k as int) =~= at);
        least
    }

    /// Takes `delta` from each lane of `key`, pinning at zero.
    pub fn decrement(&mut self, key: &VecDeque<String>, delta: u64)
        requires
            old(self).wf(),
        ensures
            final(self).wf(),
            final(self).seeds() == old(self).seeds(),
            final(self).width() == old(self).width(),
            final(self).initial() == old(self).initial(),
            final(self).lanes() == lanes_after_sub(
                old(self).lanes(),
                old(self).lanes_of(key.deep_view()),
                delta,
            ),
    {
        let k = self.seeds.len();
        let ghost before = self.lanes();
        let ghost at = self.lanes_of(key.deep_view());
        let mut j: usize = 0;
        proof {
            assert(at.take(0) =~= Seq::<int>::empty());
            assert forall|x: int| 0 <= x < before.len() implies before[x] == #[trigger] lanes_after_sub(
                before,
                at.take(0),
                delta,
            )[x] by {
                assert(hits(at.take(0), x) == 0);
                assert(delta as nat * 0 == 0);
            }
            assert(self.lanes() =~= lanes_after_sub(before, at.take(0), delta));
        }
        while j < k
            invariant
                j <= k,
                k == self.seeds().len(),
                self.wf(),
                self.seeds() == old(self).seeds(),
                self.width() == old(self).width(),
                self.initial() == old(self).initial(),
                before == old(self).lanes(),
                at == old(self).lanes_of(key.deep_view()),
                at.len() == k,
                self.lanes() == lanes_after_sub(before, at.take(j as int), delta),
            decreases k - j,
        {
            let i = self.lane(j, key);
            let cur = self.lanes.get(i);
            let new = if delta > cur {
                0
            } else {
                cur - delta
            };
            self.lanes.set(i, new);
            proof {
                let done = at.take(j as int);
                let next = at.take(j + 1);
                assert(next =~= done.push(i as int));
                lemma_clamp_sub_twice(before[i as int], delta as nat * hits(done, i as int), delta as nat);
                assert(delta as nat * hits(done, i as int) + delta as nat == delta as nat * (hits(
                    done,
                    i as int,
                ) + 1)) by (nonlinear_arith);
                assert forall|x: int| 0 <= x < before.len() implies #[trigger] self.lanes()[x]
                    == lanes_after_sub(before, next, delta)[x] by {
                    lemma_hits_push(done, i as int, x);
                }
                assert(self.lanes() =~= lanes_after_sub(before, next, delta));
            }
            j += 1;
        }
        assert(at.take(k as int) =~= at);
    }

    /// The greatest of the lanes of `key`.
    pub fn max_count(&self, key: &VecDeque<String>) -> (count: u64)
        requires
            self.wf(),
        ensures
            count == max_at(self.lanes(), self.lanes_of(key.deep_view())),
    {
        let k = self.seeds.len();
        let ghost at = self.lanes_of(key.deep_view());
        let mut greatest: u64 = 0;
        let mut j: usize = 0;
        proof {
            assert(at.take(0) =~= Seq::<int>::empty());
        }
        while j < k
            invariant
                j <= k,
                k == self.seeds().len(),
                self.wf(),
                at == self.lanes_of(key.deep_view()),
                at.len() == k,
                greatest == max_at(self.lanes(), at.take(j as int)),
            decreases k - j,
        {
            let i = self.lane(j, key);
            let cur = self.lanes.get(i);
            proof {
                assert(at.take(j + 1).drop_last() =~= at.take(j as int));
            }
            if cur > greatest {
                greatest = cur;
            }
            j += 1;
        }
        assert(at.take(k as int) =~= at);
        greatest
    }

    /// The number of lanes that no longer hold the initial value.
    pub fn nonzero(&self) -> (n: usize)
        ensures
            n == changed_lanes(self.lanes(), self.initial()),
    {
        let len = self.lanes.len();
        let mut n: usize = 0;
        let mut i: usize = 0;
        proof {
            assert(self.lanes().take(0) =~= Seq::<u64>::empty());
        }
        while i < len
            invariant
                i <= len,
                len == self.lanes().len(),
                n <= i,
                n == changed_lanes(self.lanes().take(i as int), self.initial()),
            decreases len - i,
        {
            proof {
                assert(self.lanes().take(i + 1).drop_last() =~= self.lanes().take(i as int));
            }
            if self.lanes.get(i) != self.initial {
                n += 1;
            }
            i += 1;
        }
        assert(self.lanes().take(len as int) =~= self.lanes());
        n
    }
}

} // verus!
