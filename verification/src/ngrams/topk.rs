//! The bounded selection of the most frequent n-grams: at most `k` entries,
//! kept in descending order of count, with the count of the last entry
//! published as a watermark once the selection is full.

use vstd::prelude::*;
use crate::ngrams::counter::NgramKey;

verus! {

/// An entry as the contracts see it: the n-gram and its count.
pub type Entry = (NgramKey, u64);

/// No entry is followed by one with a larger count.
pub open spec fn sorted_desc(s: Seq<Entry>) -> bool {
    forall|i: int, j: int| 0 <= i <= j < s.len() ==> s[i].1 >= s[j].1
}

/// The number of leading entries whose count is at least `count`: the
/// place where an entry with that count goes, behind every entry that is
/// not smaller.
pub open spec fn rank(s: Seq<Entry>, count: u64) -> int
    decreases s.len(),
{
    if s.len() == 0 {
        0
    } else if s.last().1 >= count {
        s.len() as int
    } else {
        rank(s.drop_last(), count)
    }
}

/// The selection after `e` was offered to it: `e` goes to its rank, and
/// what then exceeds the capacity `k` falls off the end.
pub open spec fn inserted(s: Seq<Entry>, e: Entry, k: nat) -> Seq<Entry> {
    let t = s.insert(rank(s, e.1), e);
    if t.len() > k {
        t.take(k as int)
    } else {
        t
    }
}

/// The watermark of a selection: the count of its last entry once it is
/// full, zero before.
pub open spec fn watermark(s: Seq<Entry>, k: nat) -> u64 {
    if k > 0 && s.len() == k {
        s.last().1
    } else {
        0
    }
}

/// Some entry of `s` has the n-gram `key`.
pub open spec fn has_key(s: Seq<Entry>, key: NgramKey) -> bool {
    exists|i: int| 0 <= i < s.len() && (#[trigger] s[i]).0 == key
}

/// The entries of `s` without those whose n-gram occurred before them.
pub open spec fn distinct(s: Seq<Entry>) -> Seq<Entry>
    decreases s.len(),
{
    if s.len() == 0 {
        s
    } else if has_key(s.drop_last(), s.last().0) {
        distinct(s.drop_last())
    } else {
        distinct(s.drop_last()).push(s.last())
    }
}

/// In a sorted selection the rank splits the entries: those before it are
/// not smaller than `count`, those from it on are smaller.
pub proof fn lemma_rank(s: Seq<Entry>, count: u64)
    requires
        sorted_desc(s),
    ensures
        0 <= rank(s, count) <= s.len(),
        forall|i: int| 0 <= i < rank(s, count) ==> (#[trigger] s[i]).1 >= count,
        forall|i: int| rank(s, count) <= i < s.len() ==> (#[trigger] s[i]).1 < count,
    decreases s.len(),
{
    if s.len() > 0 && s.last().1 < count {
        let front = s.drop_last();
        assert(sorted_desc(front)) by {
            assert forall|i: int, j: int| 0 <= i <= j < front.len() implies front[i].1 >= front[j].1 by {
                assert(s[i].1 >= s[j].1);
            }
        }
        lemma_rank(front, count);
        assert forall|i: int| 0 <= i < rank(s, count) implies (#[trigger] s[i]).1 >= count by {
            assert(front[i] == s[i]);
        }
        assert forall|i: int| rank(s, count) <= i < s.len() implies (#[trigger] s[i]).1 < count by {
            if i < front.len() {
                assert(front[i] == s[i]);
            }
        }
    } else if s.len() > 0 {
        assert forall|i: int| 0 <= i < s.len() implies (#[trigger] s[i]).1 >= count by {
            assert(s[i].1 >= s[s.len() - 1].1);
        }
    }
}

/// Offering an entry keeps the selection sorted and within its capacity,
/// and never lowers the watermark.
pub proof fn lemma_inserted(s: Seq<Entry>, e: Entry, k: nat)
    requires
        sorted_desc(s),
        s.len() <= k,
    ensures
        sorted_desc(inserted(s, e, k)),
        inserted(s, e, k).len() <= k,
        inserted(s, e, k).len() == if s.len() < k {
            s.len() + 1
        } else {
            s.len()
        },
        watermark(inserted(s, e, k), k) >= watermark(s, k),
{
    lemma_rank(s, e.1);
    let p = rank(s, e.1);
    let t = s.insert(p, e);
    assert(sorted_desc(t)) by {
        assert forall|i: int, j: int| 0 <= i <= j < t.len() implies t[i].1 >= t[j].1 by {
            if i < p && j > p {
                assert(t[i] == s[i] && t[j] == s[j - 1]);
                assert(s[i].1 >= s[j - 1].1);
            } else if j < p {
                assert(t[i] == s[i] && t[j] == s[j]);
                assert(s[i].1 >= s[j].1);
            } else if i > p {
                assert(t[i] == s[i - 1] && t[j] == s[j - 1]);
                assert(s[i - 1].1 >= s[j - 1].1);
            } else if i == p && j > p {
                assert(t[j] == s[j - 1]);
            } else if i < p && j == p {
                assert(t[i] == s[i]);
            }
        }
    }
    let r = inserted(s, e, k);
    assert forall|i: int, j: int| 0 <= i <= j < r.len() implies r[i].1 >= r[j].1 by {
        assert(r[i] == t[i] && r[j] == t[j]);
    }
    if k > 0 && s.len() == k {
        assert(r[k - 1] == t[k - 1]);
        if p <= k - 1 {
            if p == k - 1 {
                assert(t[k - 1] == e);
            } else {
                assert(t[k - 1] == s[k - 2]);
                assert(s[k - 2].1 >= s[k - 1].1);
            }
        } else {
            assert(t[k - 1] == s[k - 1]);
        }
    }
}

/// A full selection is unchanged by an entry that does not exceed its
/// last one.
pub proof fn lemma_inserted_rejects(s: Seq<Entry>, e: Entry, k: nat)
    requires
        sorted_desc(s),
        s.len() == k,
        k == 0 || e.1 <= s.last().1,
    ensures
        inserted(s, e, k) == s,
{
    if k > 0 {
        assert(rank(s, e.1) == s.len());
    }
    assert(inserted(s, e, k) =~= s);
}

/// A full selection that takes an entry in loses its last one first.
pub proof fn lemma_inserted_evicts(s: Seq<Entry>, e: Entry, k: nat)
    requires
        sorted_desc(s),
        s.len() == k,
        k > 0,
        e.1 > s.last().1,
    ensures
        inserted(s, e, k) == s.drop_last().insert(rank(s.drop_last(), e.1), e),
        0 <= rank(s.drop_last(), e.1) <= s.len() - 1,
{
    let front = s.drop_last();
    assert(sorted_desc(front)) by {
        assert forall|i: int, j: int| 0 <= i <= j < front.len() implies front[i].1 >= front[j].1 by {
            assert(s[i].1 >= s[j].1);
        }
    }
    lemma_rank(front, e.1);
    assert(rank(s, e.1) == rank(front, e.1));
    assert(inserted(s, e, k) =~= front.insert(rank(front, e.1), e));
}

/// The same n-grams occur in a selection and in its distinct entries.
pub proof fn lemma_distinct_keys(s: Seq<Entry>, key: NgramKey)
    ensures
        has_key(distinct(s), key) <==> has_key(s, key),
    decreases s.len(),
{
    if s.len() > 0 {
        let front = s.drop_last();
        lemma_distinct_keys(front, key);
        lemma_distinct_keys(front, s.last().0);
        let d = distinct(s);
        if has_key(s, key) {
            let i = choose|i: int| 0 <= i < s.len() && (#[trigger] s[i]).0 == key;
            if i < front.len() {
                assert(front[i].0 == key);
                let j = choose|j: int| 0 <= j < distinct(front).len() && (#[trigger] distinct(front)[j]).0 == key;
                assert(d[j].0 == key);
            } else if has_key(front, key) {
                let j = choose|j: int| 0 <= j < distinct(front).len() && (#[trigger] distinct(front)[j]).0 == key;
                assert(d[j].0 == key);
            } else {
                assert(d[d.len() - 1].0 == key);
            }
        }
        if has_key(d, key) {
            let j = choose|j: int| 0 <= j < d.len() && (#[trigger] d[j]).0 == key;
            if j < distinct(front).len() {
                assert(distinct(front)[j].0 == key);
                let i = choose|i: int| 0 <= i < front.len() && (#[trigger] front[i]).0 == key;
                assert(s[i].0 == key);
            } else {
                assert(s[s.len() - 1].0 == key);
            }
        }
    }
}

/// Rank by rank, no count of `low` exceeds the count of `high` at the
/// same rank, and `low` is no longer than `high`.
pub open spec fn dominated(low: Seq<Entry>, high: Seq<Entry>) -> bool {
    &&& low.len() <= high.len()
    &&& forall|i: int| 0 <= i < low.len() ==> (#[trigger] low[i]).1 <= high[i].1
}

/// Offering the same entry to two selections keeps the one dominated by
/// the other.
pub proof fn lemma_dominated_both(low: Seq<Entry>, high: Seq<Entry>, e: Entry, f: Entry, k: nat)
    requires
        sorted_desc(low),
        sorted_desc(high),
        low.len() <= k,
        high.len() <= k,
        dominated(low, high),
        e.1 == f.1,
    ensures
        dominated(inserted(low, e, k), inserted(high, f, k)),
{
    lemma_rank(low, e.1);
    lemma_rank(high, f.1);
    lemma_inserted(low, e, k);
    lemma_inserted(high, f, k);
    let p = rank(low, e.1);
    let q = rank(high, f.1);
    if p > q {
        assert(low[q].1 >= e.1);
        assert(high[q].1 < f.1);
    }
    let a = low.insert(p, e);
    let b = high.insert(q, f);
    let x = inserted(low, e, k);
    let y = inserted(high, f, k);
    assert forall|i: int| 0 <= i < x.len() implies (#[trigger] x[i]).1 <= y[i].1 by {
        assert(x[i] == a[i]);
        assert(y[i] == b[i]);
        if i < p {
            assert(a[i] == low[i]);
            assert(b[i] == high[i]);
        } else if i == p {
            if i < q {
                assert(b[i] == high[i]);
            }
        } else {
            assert(a[i] == low[i - 1]);
            if i < q {
                assert(b[i] == high[i]);
            } else if i > q {
                assert(b[i] == high[i - 1]);
            }
        }
    }
}

/// Offering an entry to the higher of two selections only keeps the lower
/// one dominated.
pub proof fn lemma_dominated_high(low: Seq<Entry>, high: Seq<Entry>, f: Entry, k: nat)
    requires
        sorted_desc(high),
        low.len() <= k,
        high.len() <= k,
        dominated(low, high),
    ensures
        dominated(low, inserted(high, f, k)),
{
    lemma_rank(high, f.1);
    lemma_inserted(high, f, k);
    let q = rank(high, f.1);
    let b = high.insert(q, f);
    let y = inserted(high, f, k);
    assert forall|i: int| 0 <= i < low.len() implies (#[trigger] low[i]).1 <= y[i].1 by {
        assert(y[i] == b[i]);
        if i < q {
            assert(b[i] == high[i]);
        } else if i > q {
            assert(b[i] == high[i - 1]);
            assert(high[i - 1].1 >= high[i].1);
        }
    }
}

/// Offering to the lower of two selections an entry that the higher one,
/// being full, would not take keeps the lower one dominated.
pub proof fn lemma_dominated_low(low: Seq<Entry>, high: Seq<Entry>, e: Entry, k: nat)
    requires
        sorted_desc(low),
        sorted_desc(high),
        low.len() <= k,
        high.len() == k,
        k > 0,
        dominated(low, high),
        e.1 <= high.last().1,
    ensures
        dominated(inserted(low, e, k), high),
{
    lemma_rank(low, e.1);
    lemma_inserted(low, e, k);
    let p = rank(low, e.1);
    let a = low.insert(p, e);
    let x = inserted(low, e, k);
    assert forall|i: int| 0 <= i < x.len() implies (#[trigger] x[i]).1 <= high[i].1 by {
        assert(x[i] == a[i]);
        assert(high[i].1 >= high[k - 1].1);
        if i < p {
            assert(a[i] == low[i]);
        } else if i > p {
            assert(a[i] == low[i - 1]);
        }
    }
}

/// No two of the distinct entries have the same n-gram, each of them is an
/// entry of the selection, and they come in the order they had there.
pub proof fn lemma_distinct(s: Seq<Entry>)
    ensures
        distinct(s).len() <= s.len(),
        forall|i: int, j: int|
            0 <= i < j < distinct(s).len() ==> (#[trigger] distinct(s)[i]).0 != (#[trigger] distinct(
                s,
            )[j]).0,
        forall|i: int| 0 <= i < distinct(s).len() ==> s.contains(#[trigger] distinct(s)[i]),
        sorted_desc(s) ==> sorted_desc(distinct(s)),
    decreases s.len(),
{
    if s.len() > 0 {
        let front = s.drop_last();
        let d = distinct(s);
        let df = distinct(front);
        lemma_distinct(front);
        assert forall|i: int| 0 <= i < d.len() implies s.contains(#[trigger] d[i]) by {
            if i < df.len() {
                let j = choose|j: int| 0 <= j < front.len() && front[j] == df[i];
                assert(s[j] == d[i]);
            } else {
                assert(s[s.len() - 1] == d[i]);
            }
        }
        assert forall|i: int, j: int| 0 <= i < j < d.len() implies (#[trigger] d[i]).0 != (
        #[trigger] d[j]).0 by {
            if j >= df.len() {
                lemma_distinct_keys(front, s.last().0);
                if d[i].0 == s.last().0 {
                    assert(df[i].0 == s.last().0);
                    assert(has_key(df, s.last().0));
                }
            }
        }
        if sorted_desc(s) {
            assert(sorted_desc(front)) by {
                assert forall|i: int, j: int| 0 <= i <= j < front.len() implies front[i].1
                    >= front[j].1 by {
                    assert(s[i].1 >= s[j].1);
                }
            }
            assert forall|i: int, j: int| 0 <= i <= j < d.len() implies d[i].1 >= d[j].1 by {
                if j >= df.len() && i < df.len() {
                    let x = choose|x: int| 0 <= x < front.len() && front[x] == df[i];
                    assert(s[x].1 >= s[s.len() - 1].1);
                }
            }
        }
    }
}

/// Of the entries of a sorted selection that share an n-gram, the distinct
/// entries keep one with the highest count.
pub proof fn lemma_distinct_keeps_highest(s: Seq<Entry>, i: int)
    requires
        sorted_desc(s),
        0 <= i < s.len(),
    ensures
        exists|j: int|
            0 <= j < distinct(s).len() && (#[trigger] distinct(s)[j]).0 == s[i].0 && distinct(s)[j].1
                >= s[i].1,
    decreases s.len(),
{
    let front = s.drop_last();
    let d = distinct(s);
    let df = distinct(front);
    assert(sorted_desc(front)) by {
        assert forall|a: int, b: int| 0 <= a <= b < front.len() implies front[a].1 >= front[b].1 by {
            assert(s[a].1 >= s[b].1);
        }
    }
    if i < front.len() {
        lemma_distinct_keeps_highest(front, i);
        let j = choose|j: int|
            0 <= j < df.len() && (#[trigger] df[j]).0 == front[i].0 && df[j].1 >= front[i].1;
        assert(d[j] == df[j]);
    } else if has_key(front, s.last().0) {
        let x = choose|x: int| 0 <= x < front.len() && (#[trigger] front[x]).0 == s.last().0;
        lemma_distinct_keeps_highest(front, x);
        let j = choose|j: int|
            0 <= j < df.len() && (#[trigger] df[j]).0 == front[x].0 && df[j].1 >= front[x].1;
        assert(d[j] == df[j]);
        assert(s[x].1 >= s[i].1);
    } else {
        assert(d[d.len() - 1] == s[i]);
    }
}

/// Entries of which no two share an n-gram are their own distinct
/// entries.
pub proof fn lemma_distinct_of_distinct(s: Seq<Entry>)
    requires
        forall|i: int, j: int| 0 <= i < j < s.len() ==> (#[trigger] s[i]).0 != (#[trigger] s[j]).0,
    ensures
        distinct(s) == s,
    decreases s.len(),
{
    if s.len() > 0 {
        let front = s.drop_last();
        assert forall|i: int, j: int| 0 <= i < j < front.len() implies (#[trigger] front[i]).0 != (
        #[trigger] front[j]).0 by {
            assert(s[i].0 != s[j].0);
        }
        lemma_distinct_of_distinct(front);
        if has_key(front, s.last().0) {
            let x = choose|x: int| 0 <= x < front.len() && (#[trigger] front[x]).0 == s.last().0;
            assert(s[x].0 != s[s.len() - 1].0);
        }
        assert(distinct(s) =~= s);
    }
}

/// An entry of the selection after an offer was there before, or is the
/// one offered.
pub proof fn lemma_inserted_from(s: Seq<Entry>, e: Entry, k: nat, x: Entry)
    requires
        sorted_desc(s),
        inserted(s, e, k).contains(x),
    ensures
        s.contains(x) || x == e,
{
    lemma_rank(s, e.1);
    let p = rank(s, e.1);
    let t = s.insert(p, e);
    let r = inserted(s, e, k);
    let i = choose|i: int| 0 <= i < r.len() && r[i] == x;
    assert(r[i] == t[i]);
    if i < p {
        assert(t[i] == s[i]);
    } else if i > p {
        assert(t[i] == s[i - 1]);
    }
}

/// An offer loses nothing but, at most, the last entry of a full
/// selection; and the entry offered is taken in unless the selection is
/// full and its last entry is not smaller.
pub proof fn lemma_inserted_keeps(s: Seq<Entry>, e: Entry, k: nat, x: Entry)
    requires
        sorted_desc(s),
        s.len() <= k,
    ensures
        s.contains(x) ==> inserted(s, e, k).contains(x) || (s.len() == k && x == s.last()),
        inserted(s, e, k).contains(e) || (s.len() == k && (k == 0 || e.1 <= s.last().1)),
{
    lemma_rank(s, e.1);
    let p = rank(s, e.1);
    let t = s.insert(p, e);
    let r = inserted(s, e, k);
    if s.contains(x) {
        let i = choose|i: int| 0 <= i < s.len() && s[i] == x;
        if i < p {
            assert(t[i] == x);
            if i < r.len() {
                assert(r[i] == x);
            }
        } else {
            assert(t[i + 1] == x);
            if i + 1 < r.len() {
                assert(r[i + 1] == x);
            }
        }
    }
    assert(t[p] == e);
    if p < r.len() {
        assert(r[p] == e);
    }
}

/// Whether two n-grams have the same tokens.
pub fn same_tokens(a: &Vec<String>, b: &Vec<String>) -> (same: bool)
    ensures
        same == (a.deep_view() == b.deep_view()),
{
    if a.len() != b.len() {
        assert(a.deep_view().len() != b.deep_view().len());
        return false;
    }
    let n = a.len();
    let mut i: usize = 0;
    while i < n
        invariant
            i <= n,
            n == a@.len(),
            n == b@.len(),
            forall|j: int| 0 <= j < i ==> a@[j]@ == b@[j]@,
        decreases n - i,
    {
        if a[i] != b[i] {
            assert(a.deep_view()[i as int] != b.deep_view()[i as int]);
            return false;
        }
        i += 1;
    }
    assert(a.deep_view() =~= b.deep_view());
    true
}

/// The `k` most frequent n-grams offered so far, highest count first.
pub struct TopKNgrams {
    k: usize,
    entries: Vec<(Vec<String>, u64)>,
    min_count: u64,
}

impl TopKNgrams {
    /// The entries, highest count first.
    pub closed spec fn entries(&self) -> Seq<Entry> {
        self.entries.deep_view()
    }

    /// The number of entries the selection holds at most.
    pub closed spec fn capacity(&self) -> nat {
        self.k as nat
    }

    /// The watermark: the count of the last entry once the selection is
    /// full, zero before.
    pub closed spec fn min_count_spec(&self) -> u64 {
        self.min_count
    }

    /// The entries are sorted and within the capacity, and the watermark
    /// mirrors the last entry of a full selection.
    pub closed spec fn wf(&self) -> bool {
        &&& self.entries.deep_view().len() <= self.k
        &&& sorted_desc(self.entries.deep_view())
        &&& self.min_count == watermark(self.entries.deep_view(), self.k as nat)
    }

    /// What well-formedness means for the public view of a selection.
    pub proof fn lemma_wf(&self)
        requires
            self.wf(),
        ensures
            self.entries().len() <= self.capacity(),
            sorted_desc(self.entries()),
            self.min_count_spec() == watermark(self.entries(), self.capacity()),
    {
    }

    /// An empty selection of capacity `k`.
    pub fn new(k: usize) -> (t: TopKNgrams)
        ensures
            t.wf(),
            t.capacity() == k,
            t.entries() == Seq::<Entry>::empty(),
            t.min_count_spec() == 0,
    {
        let t = TopKNgrams { k, entries: Vec::new(), min_count: 0 };
        assert(t.entries.deep_view() =~= Seq::<Entry>::empty());
        t
    }

    /// The watermark.
    #[verifier::when_used_as_spec(min_count_spec)]
    pub fn min_count(&self) -> (m: u64)
        ensures
            m == self.min_count_spec(),
    {
        self.min_count
    }

    /// The number of entries held.
    pub fn len(&self) -> (n: usize)
        ensures
            n == self.entries().len(),
    {
        self.entries.len()
    }

    /// Offers an n-gram with its count: it is taken in while there is room,
    /// or in place of the last entry if its count is larger; otherwise it
    /// is dropped.
    pub fn insert(&mut self, ngram: Vec<String>, count: u64)
        requires
            old(self).wf(),
        ensures
            final(self).wf(),
            final(self).capacity() == old(self).capacity(),
            final(self).entries() == inserted(
                old(self).entries(),
                (ngram.deep_view(), count),
                old(self).capacity(),
            ),
            final(self).min_count_spec() >= old(self).min_count_spec(),
    {
        let ghost before = self.entries.deep_view();
        let ghost e: Entry = (ngram.deep_view(), count);
        let ghost k = self.k as nat;
        proof {
            lemma_inserted(before, e, k);
        }
        let len = self.entries.len();
        if len == self.k {
            if len == 0 || count <= self.entries[len - 1].1 {
                proof {
                    assert(len > 0 ==> before[len - 1] == self.entries@[len - 1].deep_view());
                    lemma_inserted_rejects(before, e, k);
                }
                return;
            }
            proof {
                assert(before[len - 1] == self.entries@[len - 1].deep_view());
                lemma_inserted_evicts(before, e, k);
            }
            self.entries.pop();
            assert(self.entries.deep_view() =~= before.drop_last());
        }
        let ghost kept = self.entries.deep_view();
        let mut p: usize = self.entries.len();
        assert(kept.take(p as int) =~= kept);
        while p > 0 && self.entries[p - 1].1 < count
            invariant
                p <= self.entries@.len(),
                kept == self.entries.deep_view(),
                rank(kept, count) == rank(kept.take(p as int), count),
            decreases p,
        {
            proof {
                assert(kept.take(p as int).last() == self.entries@[p - 1].deep_view());
                assert(kept.take(p as int).drop_last() =~= kept.take(p - 1));
            }
            p -= 1;
        }
        proof {
            if p > 0 {
                assert(kept.take(p as int).last() == self.entries@[p - 1].deep_view());
            }
            assert(rank(kept, count) == p);
        }
        self.entries.insert(p, (ngram, count));
        proof {
            assert(self.entries.deep_view() =~= kept.insert(p as int, e));
            assert(self.entries.deep_view() == inserted(before, e, k));
        }
        let now = self.entries.len();
        if now == self.k {
            self.min_count = self.entries[now - 1].1;
            assert(self.entries.deep_view()[now - 1] == self.entries@[now - 1].deep_view());
        }
    }

    /// Empties the selection into a sequence, highest count first, in which
    /// each n-gram occurs once, with the highest count it was held with.
    pub fn drain(self) -> (out: Vec<(Vec<String>, u64)>)
        requires
            self.wf(),
        ensures
            out.deep_view() == distinct(self.entries()),
    {
        let ghost all = self.entries.deep_view();
        let mut entries = self.entries;
        let mut kept: Vec<(Vec<String>, u64)> = Vec::new();
        // The distinct entries, last first.
        while entries.len() > 0
            invariant
                entries.deep_view() == all.take(entries@.len() as int),
                entries@.len() <= all.len(),
                distinct(all) == distinct(entries.deep_view()) + kept.deep_view().reverse(),
            decreases entries@.len(),
        {
            let ghost here = entries.deep_view();
            let n = entries.len();
            let e = entries.pop().unwrap();
            proof {
                assert(entries.deep_view() =~= here.drop_last());
                assert(e.deep_view() == here.last());
                assert(entries.deep_view() =~= all.take(entries@.len() as int));
            }
            let mut seen = false;
            let mut j: usize = 0;
            while j < entries.len() && !seen
                invariant
                    j <= entries@.len(),
                    seen ==> has_key(entries.deep_view(), e.0.deep_view()),
                    !seen ==> forall|x: int| 0 <= x < j ==> (#[trigger] entries.deep_view()[x]).0 != e.0.deep_view(),
                decreases entries@.len() - j + if seen { 0int } else { 1int },
            {
                if same_tokens(&entries[j].0, &e.0) {
                    seen = true;
                    assert(entries.deep_view()[j as int].0 == e.0.deep_view());
                }
                j += 1;
            }
            if !seen {
                let ghost old_kept = kept.deep_view();
                kept.push(e);
                proof {
                    assert(kept.deep_view() =~= old_kept.push(here.last()));
                    assert(kept.deep_view().reverse() =~= seq![here.last()] + old_kept.reverse());
                    assert(distinct(here) == distinct(here.drop_last()).push(here.last()));
                    assert(distinct(here) + old_kept.reverse() =~= distinct(here.drop_last())
                        + kept.deep_view().reverse());
                }
            }
        }
        let ghost rev = kept.deep_view();
        assert(distinct(all) =~= rev.reverse());
        let mut out: Vec<(Vec<String>, u64)> = Vec::new();
        while kept.len() > 0
            invariant
                kept.deep_view() == rev.take(kept@.len() as int),
                kept@.len() <= rev.len(),
                out.deep_view() == rev.reverse().take(rev.len() - kept@.len()),
            decreases kept@.len(),
        {
            let ghost here = kept.deep_view();
            let ghost old_out = out.deep_view();
            let e = kept.pop().unwrap();
            out.push(e);
            proof {
                assert(kept.deep_view() =~= here.drop_last());
                assert(kept.deep_view() =~= rev.take(kept@.len() as int));
                assert(out.deep_view() =~= old_out.push(here.last()));
                assert(out.deep_view() =~= rev.reverse().take(rev.len() - kept@.len()));
            }
        }
        assert(out.deep_view() =~= rev.reverse());
        out
    }
}

} // verus!
