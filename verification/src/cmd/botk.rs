//! The bottom-k task, in two passes over the corpus: the first takes one
//! from a table that starts at the largest value for every n-gram met, the
//! second looks every n-gram up and gathers those whose lanes stayed
//! highest, which are the rarest.

use vstd::prelude::*;
use crate::cmd::ranked::{
    RankedNgram, merge_selection, merged_into, rank_entries, ranked, reported, lemma_merged_into,
    lemma_merged_from, lemma_no_more_than_seen, lemma_merged_into_empty,
};
use crate::cmd::util::{
    ConfigError, DataInstance, Record, corpus_keys, file_keys, fresh_seeds, limited, limited_len,
    record_keys, lemma_unit_updates_concat,
};
use crate::ngrams::counter::{
    CounterError, HashSeed, NgramCounter, NgramKey, lane_index, lanes_in_budget,
};
use crate::ngrams::history::{
    after_decrements, lemma_after_decrements_concat, lemma_after_decrements_len, true_count,
    total_at, lemma_max_count_bounded_by_inverse, lemma_max_count_is_inverse,
};
use crate::ngrams::lanes::Width;
use crate::ngrams::pipeline::{
    Admission, admitted_rare, collect_rare, discount_ngrams, unit_updates, lemma_admitted_rare_concat,
    lemma_admitted_rare, lemma_admitted_rare_without_drops, looked_up, lemma_admitted_rare_values,
    lemma_drops_are_outranked,
};
use crate::ngrams::topk::{
    Entry, TopKNgrams, distinct, watermark, sorted_desc, lemma_distinct, lemma_distinct_of_distinct,
};
use crate::ngrams::window::windows;
use crate::tokens::tokenize;

verus! {

/// The settings of the bottom-k task.
#[derive(Clone, Copy, Debug)]
pub struct Opt {
    /// The n-gram length.
    pub ngram: usize,
    /// At most this many records are read of each file.
    pub limit: Option<usize>,
    /// At most this many files are read.
    pub file_limit: Option<usize>,
    /// The number of n-grams to return.
    pub k: usize,
    /// The size budget of the counting table, in bytes.
    pub size: usize,
    /// The number of hash functions.
    pub hashes: u8,
    /// The seed of the hash functions; they are drawn at random without
    /// one.
    pub seed: Option<u64>,
    /// Only n-grams counted less often than this are considered.
    pub threshold: u32,
    /// With a limit, an n-gram that passes is kept only if the upper
    /// twenty-four bits of a random word do not exceed it: the limit is
    /// the probability of keeping, in units of 2^-24.
    pub keep_limit: Option<u32>,
}

/// The largest keep limit: the probability one.
pub const KEEP_ALWAYS: u32 = 0x100_0000;

/// The largest value of a lane of the bottom-k table.
pub const LANE_MAX: u64 = 0xffff_ffff;

/// The reason, if there is one, for which the bottom-k task does not
/// start.
pub open spec fn invalid(paths: nat, opt: Opt) -> Option<ConfigError> {
    if paths == 0 {
        Some(ConfigError::NoPaths)
    } else if opt.k == 0 {
        Some(ConfigError::ZeroK)
    } else if opt.size == 0 {
        Some(ConfigError::ZeroSize)
    } else if opt.hashes == 0 {
        Some(ConfigError::ZeroHashes)
    } else if opt.ngram == 0 {
        Some(ConfigError::ZeroNgram)
    } else if opt.keep_limit matches Some(limit) && limit > KEEP_ALWAYS {
        Some(ConfigError::KeepOutOfRange)
    } else if lanes_in_budget(opt.size, Width::W32) == 0 {
        Some(ConfigError::Counter(CounterError::NoLanes))
    } else {
        None
    }
}

/// The value that a lane must exceed for its n-gram to be considered: what
/// the threshold leaves of the largest value.
pub open spec fn inverse_threshold(opt: Opt) -> u64 {
    (LANE_MAX - opt.threshold) as u64
}

/// The shared selection after the second pass read the files, one after
/// the other, in the table `lanes`: for each file the n-grams are looked
/// up, gathered in a selection of the file's own against the watermark
/// that the shared selection had when the file was begun, and the file's
/// selection is then merged into the shared one. `words[f]` holds the
/// random words drawn for the n-grams of file `f`.
pub open spec fn rare_after(
    lanes: Seq<u64>,
    global: Seq<Entry>,
    seeds: Seq<HashSeed>,
    max: u64,
    files: Seq<Seq<Record>>,
    n: nat,
    k: nat,
    threshold: u64,
    limit: Option<usize>,
    words: Seq<Seq<u32>>,
    keep_limit: Option<u32>,
) -> Seq<Entry>
    decreases files.len(),
{
    if files.len() == 0 {
        global
    } else {
        let shared = rare_after(
            lanes,
            global,
            seeds,
            max,
            files.drop_last(),
            n,
            k,
            threshold,
            limit,
            words,
            keep_limit,
        );
        let a = Admission { seeds, max, capacity: k, threshold, floor: watermark(shared, k) };
        let local = admitted_rare(
            lanes,
            Seq::empty(),
            file_keys(limited(files.last(), limit), n),
            a,
            words[files.len() - 1],
            keep_limit,
        );
        merged_into(shared, distinct(local), k)
    }
}

/// The table after the first pass, with the given hash seeds.
pub open spec fn discounted(seeds: Seq<HashSeed>, files: Seq<Seq<Record>>, opt: Opt) -> Seq<u64> {
    after_decrements(
        Seq::new(lanes_in_budget(opt.size, Width::W32), |i: int| LANE_MAX),
        seeds,
        unit_updates(corpus_keys(limited(files, opt.file_limit), opt.ngram as nat, opt.limit)),
    )
}

/// The entries that the bottom-k task reports with a table of the given
/// hash seeds and the given random words: each with the greatest of its
/// lanes after the first pass.
pub open spec fn selected(
    seeds: Seq<HashSeed>,
    words: Seq<Seq<u32>>,
    files: Seq<Seq<Record>>,
    opt: Opt,
) -> Seq<Entry> {
    distinct(
        rare_after(
            discounted(seeds, files, opt),
            Seq::empty(),
            seeds,
            LANE_MAX,
            limited(files, opt.file_limit),
            opt.ngram as nat,
            opt.k as nat,
            inverse_threshold(opt),
            opt.limit,
            words,
            opt.keep_limit,
        ),
    )
}

/// What the bottom-k task finds with a table of the given hash seeds and
/// the given random words: the selected entries, each reported with what
/// its lanes lost, which is its count.
pub open spec fn found_with(
    seeds: Seq<HashSeed>,
    words: Seq<Seq<u32>>,
    files: Seq<Seq<Record>>,
    opt: Opt,
    found: Vec<RankedNgram>,
) -> bool {
    &&& fresh_seeds(seeds, opt.hashes as nat, opt.seed)
    &&& found.deep_view() == ranked(selected(seeds, words, files, opt), Some(LANE_MAX))
}

/// What the bottom-k task finds: the result for the hash seeds of a fresh
/// table and for some random words.
pub open spec fn found_by_some(files: Seq<Seq<Record>>, opt: Opt, found: Vec<RankedNgram>) -> bool {
    exists|seeds: Seq<HashSeed>, words: Seq<Seq<u32>>| #[trigger]
        found_with(seeds, words, files, opt, found)
}

/// Checks the settings against the number of inputs.
pub fn validate(paths: usize, opt: &Opt) -> (r: Result<(), ConfigError>)
    ensures
        match r {
            Ok(_) => invalid(paths as nat, *opt) is None,
            Err(e) => invalid(paths as nat, *opt) == Some(e),
        },
{
    if paths == 0 {
        return Err(ConfigError::NoPaths);
    }
    if opt.k == 0 {
        return Err(ConfigError::ZeroK);
    }
    if opt.size == 0 {
        return Err(ConfigError::ZeroSize);
    }
    if opt.hashes == 0 {
        return Err(ConfigError::ZeroHashes);
    }
    if opt.ngram == 0 {
        return Err(ConfigError::ZeroNgram);
    }
    if let Some(limit) = opt.keep_limit {
        if limit > KEEP_ALWAYS {
            return Err(ConfigError::KeepOutOfRange);
        }
    }
    if opt.size / 4 == 0 {
        return Err(ConfigError::Counter(CounterError::NoLanes));
    }
    Ok(())
}

/// First pass over one record: takes one from the count of every n-gram
/// of it; a record without text changes nothing.
pub fn discount_record(counter: &mut NgramCounter, record: &DataInstance, n: usize)
    requires
        old(counter).wf(),
    ensures
        final(counter).wf(),
        final(counter).seeds() == old(counter).seeds(),
        final(counter).width() == old(counter).width(),
        final(counter).initial() == old(counter).initial(),
        final(counter).lanes() == after_decrements(
            old(counter).lanes(),
            old(counter).seeds(),
            unit_updates(record_keys(record.deep_view(), n as nat)),
        ),
{
    match &record.text {
        Some(text) => {
            let tokens = tokenize(text.as_str());
            discount_ngrams(counter, &tokens, n);
        },
        None => {
            assert(unit_updates(Seq::<NgramKey>::empty()) =~= Seq::empty());
        },
    }
}

/// Second pass over one record: looks up its n-grams and offers to `local`
/// those that pass; a record without text changes nothing. Whatever random
/// words were drawn, the selection is the one that some sequence of words
/// gives.
pub fn rare_record(
    counter: &NgramCounter,
    local: &mut TopKNgrams,
    record: &DataInstance,
    n: usize,
    threshold: u64,
    floor: u64,
    keep_limit: Option<u32>,
)
    requires
        counter.wf(),
        old(local).wf(),
    ensures
        final(local).wf(),
        final(local).capacity() == old(local).capacity(),
        exists|words: Seq<u32>|
            words.len() == record_keys(record.deep_view(), n as nat).len() && final(local).entries()
                == #[trigger] admitted_rare(
                counter.lanes(),
                old(local).entries(),
                record_keys(record.deep_view(), n as nat),
                (Admission {
                    seeds: counter.seeds(),
                    max: counter.max(),
                    capacity: old(local).capacity(),
                    threshold,
                    floor,
                }),
                words,
                keep_limit,
            ),
{
    let ghost keys = record_keys(record.deep_view(), n as nat);
    let ghost a = Admission {
        seeds: counter.seeds(),
        max: counter.max(),
        capacity: local.capacity(),
        threshold,
        floor,
    };
    let ghost before = local.entries();
    match &record.text {
        Some(text) => {
            let tokens = tokenize(text.as_str());
            collect_rare(counter, local, &tokens, n, threshold, floor, keep_limit);
            proof {
                assert(keys == windows(tokens.deep_view(), n as nat));
                let drawn = choose|drawn: Seq<u32>|
                    drawn.len() == windows(tokens.deep_view(), n as nat).len() && local.entries()
                        == #[trigger] admitted_rare(
                        counter.lanes(),
                        before,
                        windows(tokens.deep_view(), n as nat),
                        a,
                        drawn,
                        keep_limit,
                    );
                assert(drawn.len() == keys.len() && local.entries() == admitted_rare(
                    counter.lanes(),
                    before,
                    keys,
                    a,
                    drawn,
                    keep_limit,
                ));
            }
        },
        None => {
            let ghost none = Seq::<u32>::empty();
            assert(none.len() == keys.len() && local.entries() == admitted_rare(
                counter.lanes(),
                before,
                keys,
                a,
                none,
                keep_limit,
            ));
        },
    }
}

/// First pass over a file: takes one from the count of every n-gram of its
/// first `limit` records.
pub fn discount_file(
    counter: &mut NgramCounter,
    records: &Vec<DataInstance>,
    n: usize,
    limit: Option<usize>,
)
    requires
        old(counter).wf(),
    ensures
        final(counter).wf(),
        final(counter).seeds() == old(counter).seeds(),
        final(counter).width() == old(counter).width(),
        final(counter).initial() == old(counter).initial(),
        final(counter).lanes() == after_decrements(
            old(counter).lanes(),
            old(counter).seeds(),
            unit_updates(file_keys(limited(records.deep_view(), limit), n as nat)),
        ),
{
    let take = limited_len(records.len(), limit);
    let ghost all = limited(records.deep_view(), limit);
    let ghost start = counter.lanes();
    let mut r: usize = 0;
    proof {
        assert(all.take(0) =~= Seq::<Record>::empty());
        assert(unit_updates(file_keys(all.take(0), n as nat)) =~= Seq::empty());
    }
    while r < take
        invariant
            r <= take,
            take <= records@.len(),
            all == limited(records.deep_view(), limit),
            all.len() == take,
            start == old(counter).lanes(),
            counter.wf(),
            counter.seeds() == old(counter).seeds(),
            counter.width() == old(counter).width(),
            counter.initial() == old(counter).initial(),
            counter.lanes() == after_decrements(
                start,
                counter.seeds(),
                unit_updates(file_keys(all.take(r as int), n as nat)),
            ),
        decreases take - r,
    {
        proof {
            assert(all.take(r + 1).drop_last() =~= all.take(r as int));
            assert(all.take(r + 1).last() == records@[r as int].deep_view());
            let done = file_keys(all.take(r as int), n as nat);
            let more = record_keys(all[r as int], n as nat);
            lemma_unit_updates_concat(done, more);
            lemma_after_decrements_concat(start, counter.seeds(), unit_updates(done), unit_updates(more));
        }
        discount_record(counter, &records[r], n);
        r += 1;
    }
    assert(all.take(take as int) =~= all);
}

/// First pass over the files.
pub fn discount_files(
    counter: &mut NgramCounter,
    files: &Vec<Vec<DataInstance>>,
    n: usize,
    limit: Option<usize>,
    file_limit: Option<usize>,
)
    requires
        old(counter).wf(),
    ensures
        final(counter).wf(),
        final(counter).seeds() == old(counter).seeds(),
        final(counter).width() == old(counter).width(),
        final(counter).initial() == old(counter).initial(),
        final(counter).lanes() == after_decrements(
            old(counter).lanes(),
            old(counter).seeds(),
            unit_updates(corpus_keys(limited(files.deep_view(), file_limit), n as nat, limit)),
        ),
{
    let take = limited_len(files.len(), file_limit);
    let ghost all = limited(files.deep_view(), file_limit);
    let ghost start = counter.lanes();
    let mut f: usize = 0;
    proof {
        assert(all.take(0) =~= Seq::<Seq<Record>>::empty());
        assert(unit_updates(corpus_keys(all.take(0), n as nat, limit)) =~= Seq::empty());
    }
    while f < take
        invariant
            f <= take,
            take <= files@.len(),
            all == limited(files.deep_view(), file_limit),
            all.len() == take,
            start == old(counter).lanes(),
            counter.wf(),
            counter.seeds() == old(counter).seeds(),
            counter.width() == old(counter).width(),
            counter.initial() == old(counter).initial(),
            counter.lanes() == after_decrements(
                start,
                counter.seeds(),
                unit_updates(corpus_keys(all.take(f as int), n as nat, limit)),
            ),
        decreases take - f,
    {
        proof {
            assert(all.take(f + 1).drop_last() =~= all.take(f as int));
            assert(all.take(f + 1).last() == files@[f as int].deep_view());
            let done = corpus_keys(all.take(f as int), n as nat, limit);
            let more = file_keys(limited(all[f as int], limit), n as nat);
            lemma_unit_updates_concat(done, more);
            lemma_after_decrements_concat(start, counter.seeds(), unit_updates(done), unit_updates(more));
        }
        discount_file(counter, &files[f], n, limit);
        f += 1;
    }
    assert(all.take(take as int) =~= all);
}

/// Second pass over a file: looks up the n-grams of its first `limit`
/// records, gathers those that pass in a selection of the file's own, and
/// merges that selection into the shared one. Whatever random words were
/// drawn, the shared selection is the one that some sequence of words
/// gives.
pub fn rare_file(
    counter: &NgramCounter,
    global: &mut TopKNgrams,
    records: &Vec<DataInstance>,
    n: usize,
    k: usize,
    threshold: u64,
    limit: Option<usize>,
    keep_limit: Option<u32>,
)
    requires
        counter.wf(),
        old(global).wf(),
        old(global).capacity() == k,
    ensures
        final(global).wf(),
        final(global).capacity() == k,
        exists|words: Seq<u32>| #[trigger]
            rare_file_with(
                counter.lanes(),
                old(global).entries(),
                counter.seeds(),
                counter.max(),
                limited(records.deep_view(), limit),
                n as nat,
                k as nat,
                threshold,
                words,
                keep_limit,
                final(global).entries(),
            ),
{
    let take = limited_len(records.len(), limit);
    let floor = global.min_count();
    let ghost all = limited(records.deep_view(), limit);
    let ghost a = Admission {
        seeds: counter.seeds(),
        max: counter.max(),
        capacity: k as nat,
        threshold,
        floor,
    };
    let ghost mut words: Seq<u32> = Seq::empty();
    let mut local = TopKNgrams::new(k);
    let mut r: usize = 0;
    proof {
        global.lemma_wf();
        assert(all.take(0) =~= Seq::<Record>::empty());
    }
    while r < take
        invariant
            r <= take,
            take <= records@.len(),
            all == limited(records.deep_view(), limit),
            all.len() == take,
            a == (Admission {
                seeds: counter.seeds(),
                max: counter.max(),
                capacity: k as nat,
                threshold,
                floor,
            }),
            counter.wf(),
            local.wf(),
            local.capacity() == k,
            words.len() == file_keys(all.take(r as int), n as nat).len(),
            local.entries() == admitted_rare(
                counter.lanes(),
                Seq::empty(),
                file_keys(all.take(r as int), n as nat),
                a,
                words,
                keep_limit,
            ),
        decreases take - r,
    {
        let ghost done = file_keys(all.take(r as int), n as nat);
        let ghost more = record_keys(all[r as int], n as nat);
        let ghost before = local.entries();
        proof {
            assert(all.take(r + 1).drop_last() =~= all.take(r as int));
            assert(all.take(r + 1).last() == records@[r as int].deep_view());
        }
        rare_record(counter, &mut local, &records[r], n, threshold, floor, keep_limit);
        proof {
            let drawn = choose|drawn: Seq<u32>|
                drawn.len() == more.len() && local.entries() == #[trigger] admitted_rare(
                    counter.lanes(),
                    before,
                    more,
                    a,
                    drawn,
                    keep_limit,
                );
            lemma_admitted_rare_concat(
                counter.lanes(),
                Seq::empty(),
                done,
                more,
                a,
                words,
                drawn,
                keep_limit,
            );
            words = words + drawn;
        }
        r += 1;
    }
    assert(all.take(take as int) =~= all);
    merge_selection(global, local);
    assert(rare_file_with(
        counter.lanes(),
        old(global).entries(),
        counter.seeds(),
        counter.max(),
        all,
        n as nat,
        k as nat,
        threshold,
        words,
        keep_limit,
        global.entries(),
    ));
}

/// The shared selection `after` is what the second pass over one file
/// makes of `global` when it draws the random words `words`.
pub open spec fn rare_file_with(
    lanes: Seq<u64>,
    global: Seq<Entry>,
    seeds: Seq<HashSeed>,
    max: u64,
    records: Seq<Record>,
    n: nat,
    k: nat,
    threshold: u64,
    words: Seq<u32>,
    keep_limit: Option<u32>,
    after: Seq<Entry>,
) -> bool {
    let a = Admission { seeds, max, capacity: k, threshold, floor: watermark(global, k) };
    after == merged_into(
        global,
        distinct(admitted_rare(lanes, Seq::empty(), file_keys(records, n), a, words, keep_limit)),
        k,
    )
}

/// Only the words drawn for the files read matter.
pub proof fn lemma_rare_after_words(
    lanes: Seq<u64>,
    global: Seq<Entry>,
    seeds: Seq<HashSeed>,
    max: u64,
    files: Seq<Seq<Record>>,
    n: nat,
    k: nat,
    threshold: u64,
    limit: Option<usize>,
    words: Seq<Seq<u32>>,
    others: Seq<Seq<u32>>,
    keep_limit: Option<u32>,
)
    requires
        files.len() <= words.len(),
        files.len() <= others.len(),
        forall|f: int| 0 <= f < files.len() ==> words[f] == others[f],
    ensures
        rare_after(lanes, global, seeds, max, files, n, k, threshold, limit, words, keep_limit)
            == rare_after(lanes, global, seeds, max, files, n, k, threshold, limit, others, keep_limit),
    decreases files.len(),
{
    if files.len() > 0 {
        lemma_rare_after_words(
            lanes,
            global,
            seeds,
            max,
            files.drop_last(),
            n,
            k,
            threshold,
            limit,
            words,
            others,
            keep_limit,
        );
    }
}

/// Second pass over the files. Whatever random words were drawn, the
/// shared selection is the one that some words give.
pub fn rare_files(
    counter: &NgramCounter,
    global: &mut TopKNgrams,
    files: &Vec<Vec<DataInstance>>,
    n: usize,
    k: usize,
    threshold: u64,
    limit: Option<usize>,
    file_limit: Option<usize>,
    keep_limit: Option<u32>,
)
    requires
        counter.wf(),
        old(global).wf(),
        old(global).capacity() == k,
    ensures
        final(global).wf(),
        final(global).capacity() == k,
        exists|words: Seq<Seq<u32>>|
            final(global).entries() == #[trigger] rare_after(
                counter.lanes(),
                old(global).entries(),
                counter.seeds(),
                counter.max(),
                limited(files.deep_view(), file_limit),
                n as nat,
                k as nat,
                threshold,
                limit,
                words,
                keep_limit,
            ),
{
    let take = limited_len(files.len(), file_limit);
    let ghost all = limited(files.deep_view(), file_limit);
    let ghost first = global.entries();
    let ghost mut words: Seq<Seq<u32>> = Seq::empty();
    let mut f: usize = 0;
    proof {
        assert(all.take(0) =~= Seq::<Seq<Record>>::empty());
    }
    while f < take
        invariant
            f <= take,
            take <= files@.len(),
            all == limited(files.deep_view(), file_limit),
            all.len() == take,
            first == old(global).entries(),
            counter.wf(),
            global.wf(),
            global.capacity() == k,
            words.len() == f,
            global.entries() == rare_after(
                counter.lanes(),
                first,
                counter.seeds(),
                counter.max(),
                all.take(f as int),
                n as nat,
                k as nat,
                threshold,
                limit,
                words,
                keep_limit,
            ),
        decreases take - f,
    {
        let ghost before = global.entries();
        proof {
            assert(all.take(f + 1).drop_last() =~= all.take(f as int));
            assert(all.take(f + 1).last() == files@[f as int].deep_view());
            global.lemma_wf();
        }
        rare_file(counter, global, &files[f], n, k, threshold, limit, keep_limit);
        proof {
            let drawn = choose|drawn: Seq<u32>| #[trigger]
                rare_file_with(
                    counter.lanes(),
                    before,
                    counter.seeds(),
                    counter.max(),
                    limited(files@[f as int].deep_view(), limit),
                    n as nat,
                    k as nat,
                    threshold,
                    drawn,
                    keep_limit,
                    global.entries(),
                );
            let longer = words.push(drawn);
            lemma_rare_after_words(
                counter.lanes(),
                first,
                counter.seeds(),
                counter.max(),
                all.take(f as int),
                n as nat,
                k as nat,
                threshold,
                limit,
                words,
                longer,
                keep_limit,
            );
            words = longer;
        }
        f += 1;
    }
    assert(all.take(take as int) =~= all);
}

/// The bottom-k task: checks the settings, makes a table of thirty-two-bit
/// lanes that start at the largest value, makes the two passes, and
/// reports the selection, lowest count first, each n-gram once.
pub fn botk(files: &Vec<Vec<DataInstance>>, opt: &Opt) -> (r: Result<Vec<RankedNgram>, ConfigError>)
    ensures
        r is Ok <==> invalid(files@.len(), *opt) is None,
        r matches Err(e) ==> invalid(files@.len(), *opt) == Some(e),
        r matches Ok(found) ==> found_by_some(files.deep_view(), *opt, found),
{
    match validate(files.len(), opt) {
        Err(e) => {
            return Err(e);
        },
        Ok(_) => {},
    }
    let mut counter = match NgramCounter::new(
        opt.size,
        opt.hashes as usize,
        opt.seed,
        Width::W32,
        LANE_MAX,
    ) {
        Ok(counter) => counter,
        Err(e) => {
            return Err(ConfigError::Counter(e));
        },
    };
    let ghost seeds = counter.seeds();
    discount_files(&mut counter, files, opt.ngram, opt.limit, opt.file_limit);
    let mut global = TopKNgrams::new(opt.k);
    let threshold = LANE_MAX - (opt.threshold as u64);
    rare_files(
        &counter,
        &mut global,
        files,
        opt.ngram,
        opt.k,
        threshold,
        opt.limit,
        opt.file_limit,
        opt.keep_limit,
    );
    let ghost words = choose|words: Seq<Seq<u32>>|
        global.entries() == #[trigger] rare_after(
            counter.lanes(),
            Seq::empty(),
            counter.seeds(),
            counter.max(),
            limited(files.deep_view(), opt.file_limit),
            opt.ngram as nat,
            opt.k as nat,
            threshold,
            opt.limit,
            words,
            opt.keep_limit,
        );
    let entries = global.drain();
    let (found, _) = rank_entries(entries, Some(LANE_MAX), LANE_MAX);
    proof {
        assert(invalid(files@.len(), *opt) is None);
        assert(found_with(seeds, words, files.deep_view(), *opt, found));
        assert(found_by_some(files.deep_view(), *opt, found));
    }
    Ok(found)
}

/// The shared selection after the second pass over any files is sorted
/// and within its capacity, and every entry it holds was there before the
/// files were read or is an n-gram of the files.
pub proof fn lemma_rare_after(
    lanes: Seq<u64>,
    global: Seq<Entry>,
    seeds: Seq<HashSeed>,
    max: u64,
    files: Seq<Seq<Record>>,
    n: nat,
    k: nat,
    threshold: u64,
    limit: Option<usize>,
    words: Seq<Seq<u32>>,
    keep_limit: Option<u32>,
)
    requires
        sorted_desc(global),
        global.len() <= k,
    ensures
        sorted_desc(
            rare_after(lanes, global, seeds, max, files, n, k, threshold, limit, words, keep_limit),
        ),
        rare_after(lanes, global, seeds, max, files, n, k, threshold, limit, words, keep_limit).len()
            <= k,
        forall|i: int|
            0 <= i < rare_after(
                lanes,
                global,
                seeds,
                max,
                files,
                n,
                k,
                threshold,
                limit,
                words,
                keep_limit,
            ).len() ==> global.contains(
                #[trigger] rare_after(
                    lanes,
                    global,
                    seeds,
                    max,
                    files,
                    n,
                    k,
                    threshold,
                    limit,
                    words,
                    keep_limit,
                )[i],
            ) || corpus_keys(files, n, limit).contains(
                rare_after(lanes, global, seeds, max, files, n, k, threshold, limit, words, keep_limit)[i].0,
            ),
    decreases files.len(),
{
    if files.len() > 0 {
        let front = files.drop_last();
        let shared = rare_after(
            lanes,
            global,
            seeds,
            max,
            front,
            n,
            k,
            threshold,
            limit,
            words,
            keep_limit,
        );
        lemma_rare_after(lanes, global, seeds, max, front, n, k, threshold, limit, words, keep_limit);
        let a = Admission { seeds, max, capacity: k, threshold, floor: watermark(shared, k) };
        let here = file_keys(limited(files.last(), limit), n);
        let local = admitted_rare(lanes, Seq::empty(), here, a, words[files.len() - 1], keep_limit);
        lemma_admitted_rare(lanes, Seq::empty(), here, a, words[files.len() - 1], keep_limit);
        lemma_distinct(local);
        lemma_merged_into(shared, distinct(local), k);
        let after = merged_into(shared, distinct(local), k);
        let seen = corpus_keys(files, n, limit);
        assert forall|i: int| 0 <= i < after.len() implies global.contains(#[trigger] after[i])
            || seen.contains(after[i].0) by {
            let x = after[i];
            lemma_merged_from(shared, distinct(local), k, x);
            if shared.contains(x) {
                let j = choose|j: int| 0 <= j < shared.len() && shared[j] == x;
                if !global.contains(shared[j]) {
                    let older = corpus_keys(front, n, limit);
                    let y = choose|y: int| 0 <= y < older.len() && older[y] == x.0;
                    assert(seen[y] == x.0);
                }
            } else {
                let j = choose|j: int| 0 <= j < distinct(local).len() && distinct(local)[j] == x;
                assert(local.contains(distinct(local)[j]));
                let l = choose|l: int| 0 <= l < local.len() && local[l] == x;
                assert(!Seq::<Entry>::empty().contains(local[l]));
                let y = choose|y: int| 0 <= y < here.len() && here[y] == x.0;
                assert(seen[corpus_keys(front, n, limit).len() + y] == x.0);
            }
        }
    }
}

/// What the bottom-k task reports is sorted by the value stored, highest
/// first, which is by count, lowest first; holds each n-gram once; holds
/// no more n-grams than were asked for, nor more than the corpus has
/// different ones; and holds only n-grams of the corpus.
pub proof fn lemma_selected(
    seeds: Seq<HashSeed>,
    words: Seq<Seq<u32>>,
    files: Seq<Seq<Record>>,
    opt: Opt,
)
    ensures
        sorted_desc(selected(seeds, words, files, opt)),
        selected(seeds, words, files, opt).len() <= opt.k,
        selected(seeds, words, files, opt).len() <= corpus_keys(
            limited(files, opt.file_limit),
            opt.ngram as nat,
            opt.limit,
        ).to_set().len(),
        forall|i: int, j: int|
            0 <= i < j < selected(seeds, words, files, opt).len() ==> (#[trigger] selected(
                seeds,
                words,
                files,
                opt,
            )[i]).0 != (#[trigger] selected(seeds, words, files, opt)[j]).0,
        forall|i: int|
            0 <= i < selected(seeds, words, files, opt).len() ==> corpus_keys(
                limited(files, opt.file_limit),
                opt.ngram as nat,
                opt.limit,
            ).contains((#[trigger] selected(seeds, words, files, opt)[i]).0),
{
    let read = limited(files, opt.file_limit);
    let seen = corpus_keys(read, opt.ngram as nat, opt.limit);
    let shared = rare_after(
        discounted(seeds, files, opt),
        Seq::empty(),
        seeds,
        LANE_MAX,
        read,
        opt.ngram as nat,
        opt.k as nat,
        inverse_threshold(opt),
        opt.limit,
        words,
        opt.keep_limit,
    );
    lemma_rare_after(
        discounted(seeds, files, opt),
        Seq::empty(),
        seeds,
        LANE_MAX,
        read,
        opt.ngram as nat,
        opt.k as nat,
        inverse_threshold(opt),
        opt.limit,
        words,
        opt.keep_limit,
    );
    lemma_distinct(shared);
    let out = selected(seeds, words, files, opt);
    assert forall|i: int| 0 <= i < out.len() implies seen.contains((#[trigger] out[i]).0) by {
        let j = choose|j: int| 0 <= j < shared.len() && shared[j] == out[i];
        assert(!Seq::<Entry>::empty().contains(shared[j]));
    }
    lemma_no_more_than_seen(out, seen);
}

/// Without a keep limit the words drawn do not matter to the second pass.
pub proof fn lemma_rare_after_without_drops(
    lanes: Seq<u64>,
    global: Seq<Entry>,
    seeds: Seq<HashSeed>,
    max: u64,
    files: Seq<Seq<Record>>,
    n: nat,
    k: nat,
    threshold: u64,
    limit: Option<usize>,
    words: Seq<Seq<u32>>,
    others: Seq<Seq<u32>>,
)
    ensures
        rare_after(lanes, global, seeds, max, files, n, k, threshold, limit, words, None)
            == rare_after(lanes, global, seeds, max, files, n, k, threshold, limit, others, None),
    decreases files.len(),
{
    if files.len() > 0 {
        let front = files.drop_last();
        lemma_rare_after_without_drops(
            lanes,
            global,
            seeds,
            max,
            front,
            n,
            k,
            threshold,
            limit,
            words,
            others,
        );
        let shared = rare_after(lanes, global, seeds, max, front, n, k, threshold, limit, words, None);
        let a = Admission { seeds, max, capacity: k, threshold, floor: watermark(shared, k) };
        lemma_admitted_rare_without_drops(
            lanes,
            Seq::empty(),
            file_keys(limited(files.last(), limit), n),
            a,
            words[files.len() - 1],
            others[files.len() - 1],
        );
    }
}

/// With a seed and without a keep limit, the bottom-k task reports the
/// same for the same files and settings, whenever it runs.
pub proof fn lemma_same_seed_same_output(
    files: Seq<Seq<Record>>,
    opt: Opt,
    one: Vec<RankedNgram>,
    other: Vec<RankedNgram>,
)
    requires
        opt.seed is Some,
        opt.keep_limit is None,
        found_by_some(files, opt, one),
        found_by_some(files, opt, other),
    ensures
        one.deep_view() == other.deep_view(),
{
    let (a, v) = choose|seeds: Seq<HashSeed>, words: Seq<Seq<u32>>| #[trigger]
        found_with(seeds, words, files, opt, one);
    let (b, w) = choose|seeds: Seq<HashSeed>, words: Seq<Seq<u32>>| #[trigger]
        found_with(seeds, words, files, opt, other);
    assert(a == b);
    lemma_rare_after_without_drops(
        discounted(a, files, opt),
        Seq::empty(),
        a,
        LANE_MAX,
        limited(files, opt.file_limit),
        opt.ngram as nat,
        opt.k as nat,
        inverse_threshold(opt),
        opt.limit,
        v,
        w,
    );
}

/// Every entry that the second pass adds to the shared selection holds the
/// greatest of the lanes of its n-gram.
pub proof fn lemma_rare_after_values(
    lanes: Seq<u64>,
    global: Seq<Entry>,
    seeds: Seq<HashSeed>,
    max: u64,
    files: Seq<Seq<Record>>,
    n: nat,
    k: nat,
    threshold: u64,
    limit: Option<usize>,
    words: Seq<Seq<u32>>,
    keep_limit: Option<u32>,
)
    requires
        sorted_desc(global),
        global.len() <= k,
    ensures
        forall|i: int|
            0 <= i < rare_after(
                lanes,
                global,
                seeds,
                max,
                files,
                n,
                k,
                threshold,
                limit,
                words,
                keep_limit,
            ).len() ==> global.contains(
                #[trigger] rare_after(
                    lanes,
                    global,
                    seeds,
                    max,
                    files,
                    n,
                    k,
                    threshold,
                    limit,
                    words,
                    keep_limit,
                )[i],
            ) || looked_up(
                lanes,
                seeds,
                rare_after(lanes, global, seeds, max, files, n, k, threshold, limit, words, keep_limit)[i],
            ),
    decreases files.len(),
{
    if files.len() > 0 {
        let front = files.drop_last();
        let shared = rare_after(
            lanes,
            global,
            seeds,
            max,
            front,
            n,
            k,
            threshold,
            limit,
            words,
            keep_limit,
        );
        lemma_rare_after_values(
            lanes,
            global,
            seeds,
            max,
            front,
            n,
            k,
            threshold,
            limit,
            words,
            keep_limit,
        );
        lemma_rare_after(lanes, global, seeds, max, front, n, k, threshold, limit, words, keep_limit);
        let a = Admission { seeds, max, capacity: k, threshold, floor: watermark(shared, k) };
        let here = file_keys(limited(files.last(), limit), n);
        let local = admitted_rare(lanes, Seq::empty(), here, a, words[files.len() - 1], keep_limit);
        lemma_admitted_rare_values(lanes, Seq::empty(), here, a, words[files.len() - 1], keep_limit);
        lemma_distinct(local);
        let after = merged_into(shared, distinct(local), k);
        assert forall|i: int| 0 <= i < after.len() implies global.contains(#[trigger] after[i])
            || looked_up(lanes, seeds, after[i]) by {
            let x = after[i];
            lemma_merged_from(shared, distinct(local), k, x);
            if shared.contains(x) {
                let j = choose|j: int| 0 <= j < shared.len() && shared[j] == x;
            } else {
                let j = choose|j: int| 0 <= j < distinct(local).len() && distinct(local)[j] == x;
                assert(local.contains(distinct(local)[j]));
                let l = choose|l: int| 0 <= l < local.len() && local[l] == x;
                assert(!Seq::<Entry>::empty().contains(local[l]));
            }
        }
    }
}

/// The number of times that `key` occurs among the n-grams that the first
/// pass read.
pub open spec fn occurrences_read(files: Seq<Seq<Record>>, opt: Opt, key: NgramKey) -> nat {
    true_count(
        unit_updates(corpus_keys(limited(files, opt.file_limit), opt.ngram as nat, opt.limit)),
        key,
    )
}

/// The bottom-k task never reports less than the true count: the count
/// reported for an n-gram is at least the number of times the n-gram
/// occurs in what was read, or it is the largest value.
pub proof fn lemma_reported_covers_true_count(
    seeds: Seq<HashSeed>,
    words: Seq<Seq<u32>>,
    files: Seq<Seq<Record>>,
    opt: Opt,
    i: int,
)
    requires
        seeds.len() > 0,
        lanes_in_budget(opt.size, Width::W32) > 0,
        0 <= i < selected(seeds, words, files, opt).len(),
    ensures
        ({
            let e = selected(seeds, words, files, opt)[i];
            let count = reported(e.1, Some(LANE_MAX));
            count == LANE_MAX || count >= occurrences_read(files, opt, e.0)
        }),
{
    let lanes = discounted(seeds, files, opt);
    let read = limited(files, opt.file_limit);
    let shared = rare_after(
        lanes,
        Seq::empty(),
        seeds,
        LANE_MAX,
        read,
        opt.ngram as nat,
        opt.k as nat,
        inverse_threshold(opt),
        opt.limit,
        words,
        opt.keep_limit,
    );
    lemma_rare_after_values(
        lanes,
        Seq::empty(),
        seeds,
        LANE_MAX,
        read,
        opt.ngram as nat,
        opt.k as nat,
        inverse_threshold(opt),
        opt.limit,
        words,
        opt.keep_limit,
    );
    lemma_distinct(shared);
    let e = selected(seeds, words, files, opt)[i];
    let j = choose|j: int| 0 <= j < shared.len() && shared[j] == e;
    assert(!Seq::<Entry>::empty().contains(shared[j]));
    let len = lanes_in_budget(opt.size, Width::W32);
    let ops = unit_updates(corpus_keys(read, opt.ngram as nat, opt.limit));
    lemma_after_decrements_len(Seq::new(len, |i: int| LANE_MAX), seeds, ops);
    lemma_max_count_bounded_by_inverse(len, seeds, LANE_MAX, ops, e.0);
}

/// The bottom-k task reports the true count exactly for an n-gram that
/// has a lane of its own: one that took the n-gram's own decrements and
/// nothing else.
pub proof fn lemma_reported_is_true_count(
    seeds: Seq<HashSeed>,
    words: Seq<Seq<u32>>,
    files: Seq<Seq<Record>>,
    opt: Opt,
    i: int,
    j: int,
)
    requires
        lanes_in_budget(opt.size, Width::W32) > 0,
        0 <= i < selected(seeds, words, files, opt).len(),
        0 <= j < seeds.len(),
        ({
            let key = selected(seeds, words, files, opt)[i].0;
            let len = lanes_in_budget(opt.size, Width::W32);
            total_at(
                seeds,
                len,
                unit_updates(corpus_keys(limited(files, opt.file_limit), opt.ngram as nat, opt.limit)),
                lane_index(seeds[j], key, len),
            ) == occurrences_read(files, opt, key)
        }),
        occurrences_read(files, opt, selected(seeds, words, files, opt)[i].0) <= LANE_MAX,
    ensures
        ({
            let e = selected(seeds, words, files, opt)[i];
            reported(e.1, Some(LANE_MAX)) == occurrences_read(files, opt, e.0)
        }),
{
    let lanes = discounted(seeds, files, opt);
    let read = limited(files, opt.file_limit);
    let shared = rare_after(
        lanes,
        Seq::empty(),
        seeds,
        LANE_MAX,
        read,
        opt.ngram as nat,
        opt.k as nat,
        inverse_threshold(opt),
        opt.limit,
        words,
        opt.keep_limit,
    );
    lemma_rare_after_values(
        lanes,
        Seq::empty(),
        seeds,
        LANE_MAX,
        read,
        opt.ngram as nat,
        opt.k as nat,
        inverse_threshold(opt),
        opt.limit,
        words,
        opt.keep_limit,
    );
    lemma_distinct(shared);
    let e = selected(seeds, words, files, opt)[i];
    let x = choose|x: int| 0 <= x < shared.len() && shared[x] == e;
    assert(!Seq::<Entry>::empty().contains(shared[x]));
    let len = lanes_in_budget(opt.size, Width::W32);
    let ops = unit_updates(corpus_keys(read, opt.ngram as nat, opt.limit));
    lemma_after_decrements_len(Seq::new(len, |i: int| LANE_MAX), seeds, ops);
    lemma_max_count_is_inverse(len, seeds, LANE_MAX, ops, e.0, j);
}

/// The settings without the keep limit.
pub open spec fn without_drops(opt: Opt) -> Opt {
    Opt { keep_limit: None, ..opt }
}

/// Over one file, what the bottom-k task reports is the selection of the
/// file with each n-gram held once.
pub proof fn lemma_one_file_selected(
    seeds: Seq<HashSeed>,
    words: Seq<Seq<u32>>,
    files: Seq<Seq<Record>>,
    opt: Opt,
)
    requires
        limited(files, opt.file_limit).len() == 1,
    ensures
        selected(seeds, words, files, opt) == distinct(
            admitted_rare(
                discounted(seeds, files, opt),
                Seq::empty(),
                file_keys(limited(limited(files, opt.file_limit).last(), opt.limit), opt.ngram as nat),
                (Admission {
                    seeds,
                    max: LANE_MAX,
                    capacity: opt.k as nat,
                    threshold: inverse_threshold(opt),
                    floor: 0,
                }),
                words[0],
                opt.keep_limit,
            ),
        ),
{
    let lanes = discounted(seeds, files, opt);
    let read = limited(files, opt.file_limit);
    let k = opt.k as nat;
    let n = opt.ngram as nat;
    let none = read.drop_last();
    assert(none =~= Seq::<Seq<Record>>::empty());
    let a = Admission { seeds, max: LANE_MAX, capacity: k, threshold: inverse_threshold(opt), floor: 0 };
    assert(watermark(Seq::<Entry>::empty(), k) == 0);
    let keys = file_keys(limited(read.last(), opt.limit), n);
    let local = admitted_rare(lanes, Seq::empty(), keys, a, words[0], opt.keep_limit);
    assert(rare_after(
        lanes,
        Seq::empty(),
        seeds,
        LANE_MAX,
        none,
        n,
        k,
        inverse_threshold(opt),
        opt.limit,
        words,
        opt.keep_limit,
    ) == Seq::<Entry>::empty());
    lemma_admitted_rare(lanes, Seq::empty(), keys, a, words[0], opt.keep_limit);
    lemma_distinct(local);
    lemma_merged_into_empty(distinct(local), k);
    lemma_distinct_of_distinct(distinct(local));
}

/// Over one file, dropping n-grams at random never lowers a reported
/// count: at every rank that the runs with and without drops both report,
/// the count reported without drops is no larger than the count reported
/// with drops, whatever words were drawn.
pub proof fn lemma_one_file_drops_never_lower(
    seeds: Seq<HashSeed>,
    words: Seq<Seq<u32>>,
    others: Seq<Seq<u32>>,
    files: Seq<Seq<Record>>,
    opt: Opt,
    i: int,
)
    requires
        opt.k > 0,
        limited(files, opt.file_limit).len() == 1,
        0 <= i < selected(seeds, words, files, opt).len(),
        i < selected(seeds, others, files, without_drops(opt)).len(),
    ensures
        reported(selected(seeds, others, files, without_drops(opt))[i].1, Some(LANE_MAX)) <= reported(
            selected(seeds, words, files, opt)[i].1,
            Some(LANE_MAX),
        ),
{
    let plain = without_drops(opt);
    let lanes = discounted(seeds, files, opt);
    assert(discounted(seeds, files, plain) == lanes);
    assert(inverse_threshold(plain) == inverse_threshold(opt));
    let keys = file_keys(limited(limited(files, opt.file_limit).last(), opt.limit), opt.ngram as nat);
    let a = Admission {
        seeds,
        max: LANE_MAX,
        capacity: opt.k as nat,
        threshold: inverse_threshold(opt),
        floor: 0,
    };
    lemma_one_file_selected(seeds, words, files, opt);
    lemma_one_file_selected(seeds, others, files, plain);
    lemma_admitted_rare_without_drops(lanes, Seq::empty(), keys, a, others[0], words[0]);
    lemma_drops_are_outranked(lanes, keys, a, words[0], opt.keep_limit, i);
}

} // verus!
