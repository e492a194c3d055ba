//! The top-k task: every n-gram of the corpus is counted, those whose
//! count is high enough are gathered in a selection for each file, and the
//! selections are merged into one.

use vstd::prelude::*;
use crate::cmd::ranked::{
    RankedNgram, merge_selection, merged_into, rank_entries, ranked, holds_value,
    lemma_merged_into, lemma_merged_from, lemma_no_more_than_seen, lemma_merged_into_empty,
};
use crate::cmd::util::{
    ConfigError, DataInstance, Record, corpus_keys, file_keys, fresh_seeds, limited, limited_len,
    record_keys, lemma_unit_updates_concat, lemma_no_text_no_keys,
};
use crate::ngrams::counter::{CounterError, HashSeed, NgramCounter, NgramKey, lanes_in_budget};
use crate::ngrams::history::{
    after_increments, true_count, lemma_after_increments, lemma_after_increments_concat,
};
use crate::ngrams::counter::lane_index;
use crate::ngrams::lanes::Width;
use crate::ngrams::pipeline::{
    Admission, admitted, collect_frequent, count_at, covers, unit_updates,
    lemma_admitted_concat, lemma_admitted, lemma_admitted_covers, lemma_admitted_entries,
    lemma_admitted_keeps_largest,
};
use crate::ngrams::topk::{
    Entry, TopKNgrams, distinct, has_key, watermark, sorted_desc, lemma_distinct,
    lemma_distinct_keeps_highest, lemma_distinct_keys,
};
use crate::tokens::tokenize;

verus! {

/// The settings of the top-k task.
#[derive(Clone, Copy, Debug)]
pub struct Opt {
    /// The n-gram length.
    pub ngram: usize,
    /// At most this many records are read of each file.
    pub limit: Option<usize>,
    /// At most this many files are read.
    pub file_limit: Option<usize>,
    /// The number of n-grams to return.
    pub topk: usize,
    /// The size budget of the counting table, in bytes.
    pub size: usize,
    /// The number of hash functions.
    pub hashes: u8,
    /// The seed of the hash functions; they are drawn at random without
    /// one.
    pub seed: Option<u64>,
    /// Only n-grams counted more often than this are considered.
    pub threshold: u32,
    /// Whether the lanes are sixty-four bits wide rather than thirty-two.
    pub use_u64: bool,
}

/// What the top-k task found.
#[derive(Debug)]
pub struct Found {
    /// The n-grams, highest count first.
    pub ranked: Vec<RankedNgram>,
    /// Whether a count reached the largest value a lane holds, so that the
    /// true count may be higher.
    pub overflow: bool,
}

impl Opt {
    /// The width of the lanes.
    pub open spec fn width_spec(&self) -> Width {
        if self.use_u64 {
            Width::W64
        } else {
            Width::W32
        }
    }

    /// The width of the lanes.
    #[verifier::when_used_as_spec(width_spec)]
    pub fn width(&self) -> (w: Width)
        ensures
            w == self.width_spec(),
    {
        if self.use_u64 {
            Width::W64
        } else {
            Width::W32
        }
    }
}

/// The reason, if there is one, for which the top-k task does not start.
pub open spec fn invalid(paths: nat, opt: Opt) -> Option<ConfigError> {
    if paths == 0 {
        Some(ConfigError::NoPaths)
    } else if opt.topk == 0 {
        Some(ConfigError::ZeroK)
    } else if opt.size == 0 {
        Some(ConfigError::ZeroSize)
    } else if opt.hashes == 0 {
        Some(ConfigError::ZeroHashes)
    } else if opt.ngram == 0 {
        Some(ConfigError::ZeroNgram)
    } else if lanes_in_budget(opt.size, opt.width_spec()) == 0 {
        Some(ConfigError::Counter(CounterError::NoLanes))
    } else {
        None
    }
}

/// The shared selection after the files were read, one after the other,
/// by a single worker: for each file the n-grams are counted in the table
/// that the earlier files left, gathered in a selection of the file's own
/// against the watermark that the shared selection had when the file was
/// begun, and the file's selection is then merged into the shared one.
pub open spec fn selection_after(
    lanes: Seq<u64>,
    global: Seq<Entry>,
    seeds: Seq<HashSeed>,
    max: u64,
    files: Seq<Seq<Record>>,
    n: nat,
    k: nat,
    threshold: u64,
    limit: Option<usize>,
) -> Seq<Entry>
    decreases files.len(),
{
    if files.len() == 0 {
        global
    } else {
        let front = files.drop_last();
        let shared = selection_after(lanes, global, seeds, max, front, n, k, threshold, limit);
        let table = after_increments(lanes, seeds, unit_updates(corpus_keys(front, n, limit)), max);
        let a = Admission { seeds, max, capacity: k, threshold, floor: watermark(shared, k) };
        let local = admitted(table, Seq::empty(), file_keys(limited(files.last(), limit), n), a);
        merged_into(shared, distinct(local), k)
    }
}

/// The entries that the top-k task reports with a table of the given hash
/// seeds.
pub open spec fn selected(seeds: Seq<HashSeed>, files: Seq<Seq<Record>>, opt: Opt) -> Seq<Entry> {
    let lanes = Seq::new(lanes_in_budget(opt.size, opt.width_spec()), |i: int| 0u64);
    distinct(
        selection_after(
            lanes,
            Seq::empty(),
            seeds,
            opt.width_spec().max_spec(),
            limited(files, opt.file_limit),
            opt.ngram as nat,
            opt.topk as nat,
            opt.threshold as u64,
            opt.limit,
        ),
    )
}

/// What the top-k task finds with a table of the given hash seeds.
pub open spec fn found_with(seeds: Seq<HashSeed>, files: Seq<Seq<Record>>, opt: Opt, found: Found) -> bool {
    &&& found.ranked.deep_view() == ranked(selected(seeds, files, opt), None)
    &&& found.overflow == holds_value(selected(seeds, files, opt), opt.width_spec().max_spec())
}

/// What the top-k task finds: the result for the hash seeds of a fresh
/// table, which are those drawn from the seed where there is one.
pub open spec fn found_by_fresh_table(files: Seq<Seq<Record>>, opt: Opt, found: Found) -> bool {
    exists|seeds: Seq<HashSeed>| #[trigger]
        fresh_seeds(seeds, opt.hashes as nat, opt.seed) && found_with(seeds, files, opt, found)
}

/// Checks the settings against the number of inputs.
pub fn validate(paths: usize, opt: &Opt) -> (r: Result<(), ConfigError>)
    ensures
        match r {
            Ok(_) => invalid(paths as nat, *opt) is None,
            Err(e) => invalid(paths as nat, *opt) == Some(e),
        },
{
    if paths == 0 {
        Err(ConfigError::NoPaths)
    } else if opt.topk == 0 {
        Err(ConfigError::ZeroK)
    } else if opt.size == 0 {
        Err(ConfigError::ZeroSize)
    } else if opt.hashes == 0 {
        Err(ConfigError::ZeroHashes)
    } else if opt.ngram == 0 {
        Err(ConfigError::ZeroNgram)
    } else if opt.size / opt.width().bytes() == 0 {
        Err(ConfigError::Counter(CounterError::NoLanes))
    } else {
        Ok(())
    }
}

/// Counts the n-grams of one record and offers to `local` those that pass;
/// a record without text changes nothing.
pub fn collect_record(
    counter: &mut NgramCounter,
    local: &mut TopKNgrams,
    record: &DataInstance,
    n: usize,
    threshold: u64,
    floor: u64,
)
    requires
        old(counter).wf(),
        old(local).wf(),
    ensures
        final(counter).wf(),
        final(counter).seeds() == old(counter).seeds(),
        final(counter).width() == old(counter).width(),
        final(counter).initial() == old(counter).initial(),
        final(counter).lanes() == after_increments(
            old(counter).lanes(),
            old(counter).seeds(),
            unit_updates(record_keys(record.deep_view(), n as nat)),
            old(counter).max(),
        ),
        final(local).wf(),
        final(local).capacity() == old(local).capacity(),
        final(local).entries() == admitted(
            old(counter).lanes(),
            old(local).entries(),
            record_keys(record.deep_view(), n as nat),
            (Admission {
                seeds: old(counter).seeds(),
                max: old(counter).max(),
                capacity: old(local).capacity(),
                threshold,
                floor,
            }),
        ),
{
    match &record.text {
        Some(text) => {
            let tokens = tokenize(text.as_str());
            collect_frequent(counter, local, &tokens, n, threshold, floor);
        },
        None => {
            assert(unit_updates(Seq::<NgramKey>::empty()) =~= Seq::empty());
        },
    }
}

/// Reads the first `limit` records of a file: counts their n-grams,
/// gathers those that pass in a selection of the file's own, and merges
/// that selection into the shared one.
pub fn select_file(
    counter: &mut NgramCounter,
    global: &mut TopKNgrams,
    records: &Vec<DataInstance>,
    n: usize,
    k: usize,
    threshold: u64,
    limit: Option<usize>,
)
    requires
        old(counter).wf(),
        old(global).wf(),
        old(global).capacity() == k,
    ensures
        final(counter).wf(),
        final(counter).seeds() == old(counter).seeds(),
        final(counter).width() == old(counter).width(),
        final(counter).initial() == old(counter).initial(),
        final(counter).lanes() == after_increments(
            old(counter).lanes(),
            old(counter).seeds(),
            unit_updates(file_keys(limited(records.deep_view(), limit), n as nat)),
            old(counter).max(),
        ),
        final(global).wf(),
        final(global).capacity() == k,
        final(global).entries() == merged_into(
            old(global).entries(),
            distinct(
                admitted(
                    old(counter).lanes(),
                    Seq::empty(),
                    file_keys(limited(records.deep_view(), limit), n as nat),
                    (Admission {
                        seeds: old(counter).seeds(),
                        max: old(counter).max(),
                        capacity: k as nat,
                        threshold,
                        floor: old(global).min_count_spec(),
                    }),
                ),
            ),
            k as nat,
        ),
{
    let take = limited_len(records.len(), limit);
    let floor = global.min_count();
    let ghost all = limited(records.deep_view(), limit);
    let ghost start = counter.lanes();
    let ghost a = Admission {
        seeds: counter.seeds(),
        max: counter.max(),
        capacity: k as nat,
        threshold,
        floor,
    };
    let mut local = TopKNgrams::new(k);
    let mut r: usize = 0;
    proof {
        assert(all.len() == take);
        assert(all.take(0) =~= Seq::<Record>::empty());
        assert(unit_updates(file_keys(all.take(0), n as nat)) =~= Seq::empty());
    }
    while r < take
        invariant
            r <= take,
            take <= records@.len(),
            all == limited(records.deep_view(), limit),
            all.len() == take,
            start == old(counter).lanes(),
            a == (Admission {
                seeds: old(counter).seeds(),
                max: old(counter).max(),
                capacity: k as nat,
                threshold,
                floor,
            }),
            counter.wf(),
            counter.seeds() == old(counter).seeds(),
            counter.width() == old(counter).width(),
            counter.initial() == old(counter).initial(),
            local.wf(),
            local.capacity() == k,
            counter.lanes() == after_increments(
                start,
                a.seeds,
                unit_updates(file_keys(all.take(r as int), n as nat)),
                a.max,
            ),
            local.entries() == admitted(start, Seq::empty(), file_keys(all.take(r as int), n as nat), a),
        decreases take - r,
    {
        proof {
            assert(all.take(r + 1).drop_last() =~= all.take(r as int));
            assert(all.take(r + 1).last() == records@[r as int].deep_view());
            let done = file_keys(all.take(r as int), n as nat);
            let more = record_keys(all[r as int], n as nat);
            lemma_unit_updates_concat(done, more);
            lemma_after_increments_concat(start, a.seeds, unit_updates(done), unit_updates(more), a.max);
            lemma_admitted_concat(start, Seq::empty(), done, more, a);
        }
        collect_record(counter, &mut local, &records[r], n, threshold, floor);
        r += 1;
    }
    assert(all.take(take as int) =~= all);
    merge_selection(global, local);
}

/// Reads the files one after the other into the table and the shared
/// selection.
pub fn select_files(
    counter: &mut NgramCounter,
    global: &mut TopKNgrams,
    files: &Vec<Vec<DataInstance>>,
    n: usize,
    k: usize,
    threshold: u64,
    limit: Option<usize>,
    file_limit: Option<usize>,
)
    requires
        old(counter).wf(),
        old(global).wf(),
        old(global).capacity() == k,
    ensures
        final(counter).wf(),
        final(counter).seeds() == old(counter).seeds(),
        final(counter).width() == old(counter).width(),
        final(counter).initial() == old(counter).initial(),
        final(counter).lanes() == after_increments(
            old(counter).lanes(),
            old(counter).seeds(),
            unit_updates(corpus_keys(limited(files.deep_view(), file_limit), n as nat, limit)),
            old(counter).max(),
        ),
        final(global).wf(),
        final(global).capacity() == k,
        final(global).entries() == selection_after(
            old(counter).lanes(),
            old(global).entries(),
            old(counter).seeds(),
            old(counter).max(),
            limited(files.deep_view(), file_limit),
            n as nat,
            k as nat,
            threshold,
            limit,
        ),
{
    let take = limited_len(files.len(), file_limit);
    let ghost all = limited(files.deep_view(), file_limit);
    let ghost start = counter.lanes();
    let ghost first = global.entries();
    let ghost seeds = counter.seeds();
    let ghost max = counter.max();
    let mut f: usize = 0;
    proof {
        assert(all.len() == take);
        assert(all.take(0) =~= Seq::<Seq<Record>>::empty());
        assert(unit_updates(corpus_keys(all.take(0), n as nat, limit)) =~= Seq::empty());
    }
    while f < take
        invariant
            f <= take,
            take <= files@.len(),
            all == limited(files.deep_view(), file_limit),
            all.len() == take,
            start == old(counter).lanes(),
            first == old(global).entries(),
            seeds == old(counter).seeds(),
            max == old(counter).max(),
            counter.wf(),
            counter.seeds() == old(counter).seeds(),
            counter.width() == old(counter).width(),
            counter.initial() == old(counter).initial(),
            global.wf(),
            global.capacity() == k,
            counter.lanes() == after_increments(
                start,
                seeds,
                unit_updates(corpus_keys(all.take(f as int), n as nat, limit)),
                max,
            ),
            global.entries() == selection_after(
                start,
                first,
                seeds,
                max,
                all.take(f as int),
                n as nat,
                k as nat,
                threshold,
                limit,
            ),
        decreases take - f,
    {
        proof {
            assert(all.take(f + 1).drop_last() =~= all.take(f as int));
            assert(all.take(f + 1).last() == files@[f as int].deep_view());
            let done = corpus_keys(all.take(f as int), n as nat, limit);
            let more = file_keys(limited(all[f as int], limit), n as nat);
            lemma_unit_updates_concat(done, more);
            lemma_after_increments_concat(start, seeds, unit_updates(done), unit_updates(more), max);
            global.lemma_wf();
        }
        select_file(counter, global, &files[f], n, k, threshold, limit);
        f += 1;
    }
    assert(all.take(take as int) =~= all);
}

/// The top-k task: checks the settings, makes a table of lanes that start
/// at zero, reads the files, and reports the selection, highest count
/// first, each n-gram once.
pub fn topk(files: &Vec<Vec<DataInstance>>, opt: &Opt) -> (r: Result<Found, ConfigError>)
    ensures
        r is Ok <==> invalid(files@.len(), *opt) is None,
        r matches Err(e) ==> invalid(files@.len(), *opt) == Some(e),
        r matches Ok(found) ==> found_by_fresh_table(files.deep_view(), *opt, found),
{
    match validate(files.len(), opt) {
        Err(e) => {
            return Err(e);
        },
        Ok(_) => {},
    }
    let width = opt.width();
    let mut counter = match NgramCounter::new(opt.size, opt.hashes as usize, opt.seed, width, 0) {
        Ok(counter) => counter,
        Err(e) => {
            return Err(ConfigError::Counter(e));
        },
    };
    let ghost seeds = counter.seeds();
    let mut global = TopKNgrams::new(opt.topk);
    select_files(
        &mut counter,
        &mut global,
        files,
        opt.ngram,
        opt.topk,
        opt.threshold as u64,
        opt.limit,
        opt.file_limit,
    );
    let entries = global.drain();
    let (ranked, overflow) = rank_entries(entries, None, width.max());
    let found = Found { ranked, overflow };
    proof {
        assert(fresh_seeds(seeds, opt.hashes as nat, opt.seed));
        assert(found_with(seeds, files.deep_view(), *opt, found));
        assert(found_by_fresh_table(files.deep_view(), *opt, found));
    }
    Ok(found)
}

/// The shared selection after any files is sorted and within its capacity,
/// and every entry it holds was there before the files were read or is an
/// n-gram of the files.
pub proof fn lemma_selection_after(
    lanes: Seq<u64>,
    global: Seq<Entry>,
    seeds: Seq<HashSeed>,
    max: u64,
    files: Seq<Seq<Record>>,
    n: nat,
    k: nat,
    threshold: u64,
    limit: Option<usize>,
)
    requires
        sorted_desc(global),
        global.len() <= k,
    ensures
        sorted_desc(selection_after(lanes, global, seeds, max, files, n, k, threshold, limit)),
        selection_after(lanes, global, seeds, max, files, n, k, threshold, limit).len() <= k,
        forall|i: int|
            0 <= i < selection_after(lanes, global, seeds, max, files, n, k, threshold, limit).len()
                ==> global.contains(
                #[trigger] selection_after(lanes, global, seeds, max, files, n, k, threshold, limit)[i],
            ) || corpus_keys(files, n, limit).contains(
                selection_after(lanes, global, seeds, max, files, n, k, threshold, limit)[i].0,
            ),
    decreases files.len(),
{
    if files.len() > 0 {
        let front = files.drop_last();
        let shared = selection_after(lanes, global, seeds, max, front, n, k, threshold, limit);
        lemma_selection_after(lanes, global, seeds, max, front, n, k, threshold, limit);
        let table = after_increments(lanes, seeds, unit_updates(corpus_keys(front, n, limit)), max);
        let a = Admission { seeds, max, capacity: k, threshold, floor: watermark(shared, k) };
        let here = file_keys(limited(files.last(), limit), n);
        let local = admitted(table, Seq::empty(), here, a);
        lemma_admitted(table, Seq::empty(), here, a);
        lemma_distinct(local);
        lemma_merged_into(shared, distinct(local), k);
        let after = merged_into(shared, distinct(local), k);
        let seen = corpus_keys(files, n, limit);
        assert forall|i: int| 0 <= i < after.len() implies global.contains(#[trigger] after[i])
            || seen.contains(after[i].0) by {
            let x = after[i];
            lemma_merged_from(shared, distinct(local), k, x);
            if shared.contains(x) {
                let j = choose|j: int| 0 <= j < shared.len() && shared[j] == x;
                if !global.contains(shared[j]) {
                    let older = corpus_keys(front, n, limit);
                    let y = choose|y: int| 0 <= y < older.len() && older[y] == x.0;
                    assert(seen[y] == x.0);
                }
            } else {
                let j = choose|j: int| 0 <= j < distinct(local).len() && distinct(local)[j] == x;
                assert(local.contains(distinct(local)[j]));
                let l = choose|l: int| 0 <= l < local.len() && local[l] == x;
                assert(!Seq::<Entry>::empty().contains(local[l]));
                let y = choose|y: int| 0 <= y < here.len() && here[y] == x.0;
                assert(seen[corpus_keys(front, n, limit).len() + y] == x.0);
            }
        }
    }
}

/// What the top-k task reports is sorted by count, highest first; holds
/// each n-gram once; holds no more n-grams than were asked for, nor more
/// than the corpus has different ones; and holds only n-grams of the
/// corpus.
pub proof fn lemma_selected(seeds: Seq<HashSeed>, files: Seq<Seq<Record>>, opt: Opt)
    ensures
        sorted_desc(selected(seeds, files, opt)),
        selected(seeds, files, opt).len() <= opt.topk,
        selected(seeds, files, opt).len() <= corpus_keys(
            limited(files, opt.file_limit),
            opt.ngram as nat,
            opt.limit,
        ).to_set().len(),
        forall|i: int, j: int|
            0 <= i < j < selected(seeds, files, opt).len() ==> (#[trigger] selected(
                seeds,
                files,
                opt,
            )[i]).0 != (#[trigger] selected(seeds, files, opt)[j]).0,
        forall|i: int|
            0 <= i < selected(seeds, files, opt).len() ==> corpus_keys(
                limited(files, opt.file_limit),
                opt.ngram as nat,
                opt.limit,
            ).contains((#[trigger] selected(seeds, files, opt)[i]).0),
{
    let lanes = Seq::new(lanes_in_budget(opt.size, opt.width_spec()), |i: int| 0u64);
    let read = limited(files, opt.file_limit);
    let seen = corpus_keys(read, opt.ngram as nat, opt.limit);
    let shared = selection_after(
        lanes,
        Seq::empty(),
        seeds,
        opt.width_spec().max_spec(),
        read,
        opt.ngram as nat,
        opt.topk as nat,
        opt.threshold as u64,
        opt.limit,
    );
    lemma_selection_after(
        lanes,
        Seq::empty(),
        seeds,
        opt.width_spec().max_spec(),
        read,
        opt.ngram as nat,
        opt.topk as nat,
        opt.threshold as u64,
        opt.limit,
    );
    lemma_distinct(shared);
    let out = selected(seeds, files, opt);
    assert forall|i: int| 0 <= i < out.len() implies seen.contains((#[trigger] out[i]).0) by {
        let j = choose|j: int| 0 <= j < shared.len() && shared[j] == out[i];
        assert(!Seq::<Entry>::empty().contains(shared[j]));
    }
    lemma_no_more_than_seen(out, seen);
}

/// With a seed, the top-k task reports the same for the same files and
/// settings, whenever it runs.
pub proof fn lemma_same_seed_same_output(files: Seq<Seq<Record>>, opt: Opt, one: Found, other: Found)
    requires
        opt.seed is Some,
        found_by_fresh_table(files, opt, one),
        found_by_fresh_table(files, opt, other),
    ensures
        one.ranked.deep_view() == other.ranked.deep_view(),
        one.overflow == other.overflow,
{
    let a = choose|seeds: Seq<HashSeed>| #[trigger]
        fresh_seeds(seeds, opt.hashes as nat, opt.seed) && found_with(seeds, files, opt, one);
    let b = choose|seeds: Seq<HashSeed>| #[trigger]
        fresh_seeds(seeds, opt.hashes as nat, opt.seed) && found_with(seeds, files, opt, other);
    assert(a == b);
}

/// Files without n-grams leave the shared selection as it was.
pub proof fn lemma_no_keys_no_change(
    lanes: Seq<u64>,
    global: Seq<Entry>,
    seeds: Seq<HashSeed>,
    max: u64,
    files: Seq<Seq<Record>>,
    n: nat,
    k: nat,
    threshold: u64,
    limit: Option<usize>,
)
    requires
        forall|f: int| 0 <= f < files.len() ==> file_keys(limited(#[trigger] files[f], limit), n).len() == 0,
    ensures
        selection_after(lanes, global, seeds, max, files, n, k, threshold, limit) == global,
        corpus_keys(files, n, limit) == Seq::<NgramKey>::empty(),
    decreases files.len(),
{
    if files.len() > 0 {
        let front = files.drop_last();
        assert forall|f: int| 0 <= f < front.len() implies file_keys(
            limited(#[trigger] front[f], limit),
            n,
        ).len() == 0 by {
            assert(front[f] == files[f]);
        }
        lemma_no_keys_no_change(lanes, global, seeds, max, front, n, k, threshold, limit);
        assert(files.last() == files[files.len() - 1]);
        assert(file_keys(limited(files.last(), limit), n) =~= Seq::<NgramKey>::empty());
        assert(corpus_keys(files, n, limit) =~= Seq::<NgramKey>::empty());
    }
}

/// With a limit of zero records the top-k task reads nothing and reports
/// nothing.
pub proof fn lemma_limit_zero(seeds: Seq<HashSeed>, files: Seq<Seq<Record>>, opt: Opt)
    requires
        opt.limit == Some(0usize),
    ensures
        selected(seeds, files, opt) == Seq::<Entry>::empty(),
        corpus_keys(limited(files, opt.file_limit), opt.ngram as nat, opt.limit) == Seq::<
            NgramKey,
        >::empty(),
{
    let read = limited(files, opt.file_limit);
    assert forall|f: int| 0 <= f < read.len() implies file_keys(
        limited(#[trigger] read[f], opt.limit),
        opt.ngram as nat,
    ).len() == 0 by {
        assert(limited(read[f], opt.limit) =~= Seq::<Record>::empty());
    }
    lemma_no_keys_no_change(
        Seq::new(lanes_in_budget(opt.size, opt.width_spec()), |i: int| 0u64),
        Seq::empty(),
        seeds,
        opt.width_spec().max_spec(),
        read,
        opt.ngram as nat,
        opt.topk as nat,
        opt.threshold as u64,
        opt.limit,
    );
}

/// Where no record has a text the top-k task reports nothing.
pub proof fn lemma_no_text(seeds: Seq<HashSeed>, files: Seq<Seq<Record>>, opt: Opt)
    requires
        forall|f: int, r: int| 0 <= f < files.len() && 0 <= r < files[f].len() ==> (#[trigger] files[f][r]) is None,
    ensures
        selected(seeds, files, opt) == Seq::<Entry>::empty(),
{
    let read = limited(files, opt.file_limit);
    assert forall|f: int| 0 <= f < read.len() implies file_keys(
        limited(#[trigger] read[f], opt.limit),
        opt.ngram as nat,
    ).len() == 0 by {
        assert(read[f] == files[f]);
        let records = limited(read[f], opt.limit);
        assert forall|r: int| 0 <= r < records.len() implies records[r] is None by {
            assert(records[r] == files[f][r]);
        }
        lemma_no_text_no_keys(records, opt.ngram as nat);
    }
    lemma_no_keys_no_change(
        Seq::new(lanes_in_budget(opt.size, opt.width_spec()), |i: int| 0u64),
        Seq::empty(),
        seeds,
        opt.width_spec().max_spec(),
        read,
        opt.ngram as nat,
        opt.topk as nat,
        opt.threshold as u64,
        opt.limit,
    );
}

/// Over one file the top-k task never undercounts: the count reported for
/// an n-gram is at least the number of times the n-gram occurs in the
/// records read, or it is the largest value a lane holds.
pub proof fn lemma_one_file_never_undercounts(
    seeds: Seq<HashSeed>,
    files: Seq<Seq<Record>>,
    opt: Opt,
    i: int,
)
    requires
        seeds.len() > 0,
        lanes_in_budget(opt.size, opt.width_spec()) > 0,
        limited(files, opt.file_limit).len() == 1,
        0 <= i < selected(seeds, files, opt).len(),
    ensures
        covers(
            selected(seeds, files, opt)[i].1,
            true_count(
                unit_updates(
                    corpus_keys(limited(files, opt.file_limit), opt.ngram as nat, opt.limit),
                ),
                selected(seeds, files, opt)[i].0,
            ),
            opt.width_spec().max_spec(),
        ),
{
    let lanes = Seq::new(lanes_in_budget(opt.size, opt.width_spec()), |i: int| 0u64);
    let max = opt.width_spec().max_spec();
    let read = limited(files, opt.file_limit);
    let n = opt.ngram as nat;
    let k = opt.topk as nat;
    let keys = file_keys(limited(read.last(), opt.limit), n);
    let none = read.drop_last();
    assert(none =~= Seq::<Seq<Record>>::empty());
    assert(corpus_keys(none, n, opt.limit) =~= Seq::<NgramKey>::empty());
    assert(corpus_keys(read, n, opt.limit) =~= keys);
    assert(unit_updates(Seq::<NgramKey>::empty()) =~= Seq::empty());
    let a = Admission {
        seeds,
        max,
        capacity: k,
        threshold: opt.threshold as u64,
        floor: watermark(Seq::<Entry>::empty(), k),
    };
    let local = admitted(lanes, Seq::empty(), keys, a);
    let shared = selection_after(
        lanes,
        Seq::empty(),
        seeds,
        max,
        read,
        n,
        k,
        opt.threshold as u64,
        opt.limit,
    );
    assert(selection_after(lanes, Seq::empty(), seeds, max, none, n, k, opt.threshold as u64, opt.limit)
        == Seq::<Entry>::empty());
    assert(shared == merged_into(Seq::empty(), distinct(local), k));
    lemma_admitted(lanes, Seq::empty(), keys, a);
    lemma_distinct(local);
    lemma_merged_into_empty(distinct(local), k);
    assert(shared == distinct(local));
    let once = distinct(local);
    lemma_distinct(once);
    let e = selected(seeds, files, opt)[i];
    assert(once.contains(e));
    let p = choose|p: int| 0 <= p < once.len() && once[p] == e;
    assert(local.contains(once[p]));
    let q = choose|q: int| 0 <= q < local.len() && local[q] == e;
    assert(local[q].0 == e.0);
    lemma_admitted_covers(lanes, keys, a, e.0);
    let m = choose|m: int|
        0 <= m < local.len() && (#[trigger] local[m]).0 == e.0 && covers(
            local[m].1,
            true_count(unit_updates(keys), e.0),
            max,
        );
    lemma_distinct_keeps_highest(local, m);
    let j = choose|j: int|
        0 <= j < once.len() && (#[trigger] once[j]).0 == local[m].0 && once[j].1 >= local[m].1;
    if j < p {
        assert(once[j].0 != once[p].0);
    } else if p < j {
        assert(once[p].0 != once[j].0);
    }
}

/// Over one file, an n-gram that occurs more often than a lane can count
/// is reported, if it is reported, with the largest value a lane holds,
/// and the overflow is flagged.
pub proof fn lemma_one_file_saturates(seeds: Seq<HashSeed>, files: Seq<Seq<Record>>, opt: Opt, i: int)
    requires
        seeds.len() > 0,
        lanes_in_budget(opt.size, opt.width_spec()) > 0,
        limited(files, opt.file_limit).len() == 1,
        0 <= i < selected(seeds, files, opt).len(),
        true_count(
            unit_updates(corpus_keys(limited(files, opt.file_limit), opt.ngram as nat, opt.limit)),
            selected(seeds, files, opt)[i].0,
        ) > opt.width_spec().max_spec(),
    ensures
        selected(seeds, files, opt)[i].1 == opt.width_spec().max_spec(),
        holds_value(selected(seeds, files, opt), opt.width_spec().max_spec()),
{
    lemma_one_file_never_undercounts(seeds, files, opt, i);
    lemma_one_file_counts_fit(seeds, files, opt, i);
}

/// Over one file, no count that the top-k task reports exceeds the largest
/// value a lane holds.
pub proof fn lemma_one_file_counts_fit(seeds: Seq<HashSeed>, files: Seq<Seq<Record>>, opt: Opt, i: int)
    requires
        seeds.len() > 0,
        lanes_in_budget(opt.size, opt.width_spec()) > 0,
        limited(files, opt.file_limit).len() == 1,
        0 <= i < selected(seeds, files, opt).len(),
    ensures
        selected(seeds, files, opt)[i].1 <= opt.width_spec().max_spec(),
{
    let lanes = Seq::new(lanes_in_budget(opt.size, opt.width_spec()), |i: int| 0u64);
    let max = opt.width_spec().max_spec();
    let read = limited(files, opt.file_limit);
    let n = opt.ngram as nat;
    let k = opt.topk as nat;
    let keys = file_keys(limited(read.last(), opt.limit), n);
    let none = read.drop_last();
    assert(none =~= Seq::<Seq<Record>>::empty());
    assert(corpus_keys(none, n, opt.limit) =~= Seq::<NgramKey>::empty());
    assert(unit_updates(Seq::<NgramKey>::empty()) =~= Seq::empty());
    let a = Admission {
        seeds,
        max,
        capacity: k,
        threshold: opt.threshold as u64,
        floor: watermark(Seq::<Entry>::empty(), k),
    };
    let local = admitted(lanes, Seq::empty(), keys, a);
    assert(selection_after(lanes, Seq::empty(), seeds, max, none, n, k, opt.threshold as u64, opt.limit)
        == Seq::<Entry>::empty());
    lemma_admitted(lanes, Seq::empty(), keys, a);
    lemma_distinct(local);
    lemma_merged_into_empty(distinct(local), k);
    let once = distinct(local);
    lemma_distinct(once);
    let e = selected(seeds, files, opt)[i];
    assert(once.contains(e));
    let p = choose|p: int| 0 <= p < once.len() && once[p] == e;
    assert(local.contains(once[p]));
    let q = choose|q: int| 0 <= q < local.len() && local[q] == e;
    lemma_admitted_entries(lanes, keys, a, q);
    let now = after_increments(lanes, seeds, unit_updates(keys), max);
    lemma_after_increments(lanes, seeds, unit_updates(keys), max);
    let l = lane_index(seeds[0], e.0, now.len());
    assert(e.1 <= now[l]);
}

/// The n-grams that the top-k task reads of the one file it is given.
pub open spec fn keys_read(files: Seq<Seq<Record>>, opt: Opt) -> Seq<NgramKey> {
    file_keys(limited(limited(files, opt.file_limit).last(), opt.limit), opt.ngram as nat)
}

/// The count that the n-gram at place `p` of the one file is given when it
/// is counted, in a fresh table with the given hash seeds.
pub open spec fn count_given(seeds: Seq<HashSeed>, files: Seq<Seq<Record>>, opt: Opt, p: int) -> u64 {
    count_at(
        Seq::new(lanes_in_budget(opt.size, opt.width_spec()), |i: int| 0u64),
        keys_read(files, opt),
        (Admission {
            seeds,
            max: opt.width_spec().max_spec(),
            capacity: opt.topk as nat,
            threshold: opt.threshold as u64,
            floor: 0,
        }),
        p,
    )
}

/// Over one file the top-k task leaves out nothing larger than what it
/// reports: each count above the threshold that an n-gram was given is
/// reported with its n-gram, at that count or a higher one, or else is no
/// larger than the last count reported.
pub proof fn lemma_one_file_keeps_largest(seeds: Seq<HashSeed>, files: Seq<Seq<Record>>, opt: Opt, p: int)
    requires
        opt.topk > 0,
        limited(files, opt.file_limit).len() == 1,
        0 <= p < keys_read(files, opt).len(),
        count_given(seeds, files, opt, p) > opt.threshold,
    ensures
        ({
            let out = selected(seeds, files, opt);
            let key = keys_read(files, opt)[p];
            let count = count_given(seeds, files, opt, p);
            ||| exists|i: int| 0 <= i < out.len() && (#[trigger] out[i]).0 == key && out[i].1 >= count
            ||| (out.len() > 0 && count <= out.last().1)
        }),
{
    let lanes = Seq::new(lanes_in_budget(opt.size, opt.width_spec()), |i: int| 0u64);
    let max = opt.width_spec().max_spec();
    let read = limited(files, opt.file_limit);
    let n = opt.ngram as nat;
    let k = opt.topk as nat;
    let keys = keys_read(files, opt);
    let none = read.drop_last();
    assert(none =~= Seq::<Seq<Record>>::empty());
    assert(corpus_keys(none, n, opt.limit) =~= Seq::<NgramKey>::empty());
    assert(unit_updates(Seq::<NgramKey>::empty()) =~= Seq::empty());
    let a = Admission { seeds, max, capacity: k, threshold: opt.threshold as u64, floor: 0 };
    assert(watermark(Seq::<Entry>::empty(), k) == 0);
    let local = admitted(lanes, Seq::empty(), keys, a);
    assert(selection_after(lanes, Seq::empty(), seeds, max, none, n, k, opt.threshold as u64, opt.limit)
        == Seq::<Entry>::empty());
    lemma_admitted(lanes, Seq::empty(), keys, a);
    lemma_distinct(local);
    lemma_merged_into_empty(distinct(local), k);
    let once = distinct(local);
    let out = selected(seeds, files, opt);
    assert(out == distinct(once));
    lemma_distinct(once);
    let key = keys[p];
    let count = count_given(seeds, files, opt, p);
    lemma_admitted_keeps_largest(lanes, keys, a, p);
    if exists|i: int| 0 <= i < local.len() && (#[trigger] local[i]).0 == key && local[i].1 >= count {
        let m = choose|m: int| 0 <= m < local.len() && (#[trigger] local[m]).0 == key && local[m].1 >= count;
        lemma_distinct_keeps_highest(local, m);
        let j = choose|j: int|
            0 <= j < once.len() && (#[trigger] once[j]).0 == local[m].0 && once[j].1 >= local[m].1;
        lemma_distinct_keeps_highest(once, j);
        let i = choose|i: int|
            0 <= i < out.len() && (#[trigger] out[i]).0 == once[j].0 && out[i].1 >= once[j].1;
        assert(out[i].0 == key && out[i].1 >= count);
    } else {
        assert(local.len() == k && count <= local.last().1);
        assert(has_key(local, local[0].0));
        lemma_distinct_keys(local, local[0].0);
        let j = choose|j: int| 0 <= j < once.len() && (#[trigger] once[j]).0 == local[0].0;
        assert(has_key(once, once[j].0));
        lemma_distinct_keys(once, once[j].0);
        assert(out.len() > 0);
        assert(once.contains(out.last()));
        let x = choose|x: int| 0 <= x < once.len() && once[x] == out.last();
        assert(local.contains(once[x]));
        let y = choose|y: int| 0 <= y < local.len() && local[y] == out.last();
        assert(local[y].1 >= local[local.len() - 1].1);
    }
}

} // verus!
