//! The unique task: every n-gram of the corpus is counted in a table of
//! eight-bit lanes, and the number of lanes that were touched is what the
//! estimate of the number of distinct n-grams is made from.

use vstd::prelude::*;
use crate::cmd::util::{
    ConfigError, DataInstance, Record, corpus_keys, file_keys, fresh_seeds, limited, limited_len,
    record_keys, lemma_file_keys_concat, lemma_unit_updates_concat,
};
use crate::ngrams::counter::{HashSeed, NgramCounter, NgramKey, changed_lanes, lanes_in_budget};
use crate::ngrams::history::{
    after_increments, merged, lemma_concatenation_merges, lemma_after_increments_concat,
};
use crate::ngrams::lanes::Width;
use crate::ngrams::pipeline::{count_ngrams, unit_updates};
use crate::tokens::tokenize;

verus! {

/// The settings of the unique task.
#[derive(Clone, Copy, Debug)]
pub struct Opt {
    /// The n-gram length.
    pub ngram: usize,
    /// At most this many records are read of each file.
    pub limit: Option<usize>,
    /// At most this many files are read.
    pub file_limit: Option<usize>,
    /// The size budget of the counting table, in bytes.
    pub size: usize,
    /// The number of hash functions.
    pub hashes: u8,
    /// The seed of the hash functions; they are drawn at random without
    /// one.
    pub seed: Option<u64>,
}

/// What the unique task found: how many lanes were touched, of how many,
/// under how many hash functions.
#[derive(Clone, Copy, Debug, PartialEq, Eq, Structural)]
pub struct Touched {
    /// The number of lanes that no longer hold zero.
    pub nonzero: usize,
    /// The number of lanes.
    pub lanes: usize,
    /// The number of hash functions.
    pub hashes: usize,
}

/// The reason, if there is one, for which the unique task does not start.
pub open spec fn invalid(paths: nat, opt: Opt) -> Option<ConfigError> {
    if paths == 0 {
        Some(ConfigError::NoPaths)
    } else if opt.size == 0 {
        Some(ConfigError::ZeroSize)
    } else if opt.hashes == 0 {
        Some(ConfigError::ZeroHashes)
    } else if opt.ngram == 0 {
        Some(ConfigError::ZeroNgram)
    } else {
        None
    }
}

/// What the unique task finds with a table of the given hash seeds.
pub open spec fn touched(seeds: Seq<HashSeed>, files: Seq<Seq<Record>>, opt: Opt) -> Touched {
    let lanes = lanes_in_budget(opt.size, Width::W8);
    let keys = corpus_keys(limited(files, opt.file_limit), opt.ngram as nat, opt.limit);
    let table = after_increments(Seq::new(lanes, |i: int| 0u64), seeds, unit_updates(keys), 0xff);
    Touched { nonzero: changed_lanes(table, 0) as usize, lanes: lanes as usize, hashes: seeds.len() as usize }
}

/// What the unique task finds: the result for the hash seeds of a fresh
/// table, which are those drawn from the seed where there is one.
pub open spec fn found_by_fresh_table(files: Seq<Seq<Record>>, opt: Opt, found: Touched) -> bool {
    exists|seeds: Seq<HashSeed>| #[trigger]
        fresh_seeds(seeds, opt.hashes as nat, opt.seed) && found == touched(seeds, files, opt)
}

/// Checks the settings against the number of inputs.
pub fn validate(paths: usize, opt: &Opt) -> (r: Result<(), ConfigError>)
    ensures
        match r {
            Ok(_) => invalid(paths as nat, *opt) is None,
            Err(e) => invalid(paths as nat, *opt) == Some(e),
        },
{
    if paths == 0 {
        Err(ConfigError::NoPaths)
    } else if opt.size == 0 {
        Err(ConfigError::ZeroSize)
    } else if opt.hashes == 0 {
        Err(ConfigError::ZeroHashes)
    } else if opt.ngram == 0 {
        Err(ConfigError::ZeroNgram)
    } else {
        Ok(())
    }
}

/// Counts once every n-gram of one record; a record without text changes
/// nothing.
pub fn count_record(counter: &mut NgramCounter, record: &DataInstance, n: usize)
    requires
        old(counter).wf(),
    ensures
        final(counter).wf(),
        final(counter).seeds() == old(counter).seeds(),
        final(counter).width() == old(counter).width(),
        final(counter).initial() == old(counter).initial(),
        final(counter).lanes() == after_increments(
            old(counter).lanes(),
            old(counter).seeds(),
            unit_updates(record_keys(record.deep_view(), n as nat)),
            old(counter).max(),
        ),
{
    match &record.text {
        Some(text) => {
            let tokens = tokenize(text.as_str());
            count_ngrams(counter, &tokens, n);
        },
        None => {
            assert(unit_updates(Seq::<NgramKey>::empty()) =~= Seq::empty());
        },
    }
}

/// Counts once every n-gram of the first `limit` records of a file.
pub fn count_file(
    counter: &mut NgramCounter,
    records: &Vec<DataInstance>,
    n: usize,
    limit: Option<usize>,
)
    requires
        old(counter).wf(),
    ensures
        final(counter).wf(),
        final(counter).seeds() == old(counter).seeds(),
        final(counter).width() == old(counter).width(),
        final(counter).initial() == old(counter).initial(),
        final(counter).lanes() == after_increments(
            old(counter).lanes(),
            old(counter).seeds(),
            unit_updates(file_keys(limited(records.deep_view(), limit), n as nat)),
            old(counter).max(),
        ),
{
    let take = limited_len(records.len(), limit);
    let ghost all = limited(records.deep_view(), limit);
    let ghost start = counter.lanes();
    let mut r: usize = 0;
    proof {
        assert(all.take(0) =~= Seq::<Record>::empty());
        assert(unit_updates(file_keys(all.take(0), n as nat)) =~= Seq::empty());
    }
    while r < take
        invariant
            r <= take,
            take <= records@.len(),
            all == limited(records.deep_view(), limit),
            all.len() == take,
            start == old(counter).lanes(),
            counter.wf(),
            counter.seeds() == old(counter).seeds(),
            counter.width() == old(counter).width(),
            counter.initial() == old(counter).initial(),
            counter.lanes() == after_increments(
                start,
                counter.seeds(),
                unit_updates(file_keys(all.take(r as int), n as nat)),
                counter.max(),
            ),
        decreases take - r,
    {
        proof {
            assert(all.take(r + 1).drop_last() =~= all.take(r as int));
            assert(all.take(r + 1).last() == records@[r as int].deep_view());
            let done = file_keys(all.take(r as int), n as nat);
            let more = record_keys(all[r as int], n as nat);
            lemma_unit_updates_concat(done, more);
            lemma_after_increments_concat(
                start,
                counter.seeds(),
                unit_updates(done),
                unit_updates(more),
                counter.max(),
            );
        }
        count_record(counter, &records[r], n);
        r += 1;
    }
    assert(all.take(take as int) =~= all);
}

/// Counts once every n-gram of the files, with at most `limit` records read
/// of each.
pub fn count_files(
    counter: &mut NgramCounter,
    files: &Vec<Vec<DataInstance>>,
    n: usize,
    limit: Option<usize>,
    file_limit: Option<usize>,
)
    requires
        old(counter).wf(),
    ensures
        final(counter).wf(),
        final(counter).seeds() == old(counter).seeds(),
        final(counter).width() == old(counter).width(),
        final(counter).initial() == old(counter).initial(),
        final(counter).lanes() == after_increments(
            old(counter).lanes(),
            old(counter).seeds(),
            unit_updates(corpus_keys(limited(files.deep_view(), file_limit), n as nat, limit)),
            old(counter).max(),
        ),
{
    let take = limited_len(files.len(), file_limit);
    let ghost all = limited(files.deep_view(), file_limit);
    let ghost start = counter.lanes();
    let mut f: usize = 0;
    proof {
        assert(all.take(0) =~= Seq::<Seq<Record>>::empty());
        assert(unit_updates(corpus_keys(all.take(0), n as nat, limit)) =~= Seq::empty());
    }
    while f < take
        invariant
            f <= take,
            take <= files@.len(),
            all == limited(files.deep_view(), file_limit),
            all.len() == take,
            start == old(counter).lanes(),
            counter.wf(),
            counter.seeds() == old(counter).seeds(),
            counter.width() == old(counter).width(),
            counter.initial() == old(counter).initial(),
            counter.lanes() == after_increments(
                start,
                counter.seeds(),
                unit_updates(corpus_keys(all.take(f as int), n as nat, limit)),
                counter.max(),
            ),
        decreases take - f,
    {
        proof {
            assert(all.take(f + 1).drop_last() =~= all.take(f as int));
            assert(all.take(f + 1).last() == files@[f as int].deep_view());
            let done = corpus_keys(all.take(f as int), n as nat, limit);
            let more = file_keys(limited(all[f as int], limit), n as nat);
            lemma_unit_updates_concat(done, more);
            lemma_after_increments_concat(
                start,
                counter.seeds(),
                unit_updates(done),
                unit_updates(more),
                counter.max(),
            );
        }
        count_file(counter, &files[f], n, limit);
        f += 1;
    }
    assert(all.take(take as int) =~= all);
}

/// The unique task: checks the settings, makes a table of eight-bit lanes
/// that start at zero, counts every n-gram of the files, and reports how
/// many lanes were touched.
pub fn unique(files: &Vec<Vec<DataInstance>>, opt: &Opt) -> (r: Result<Touched, ConfigError>)
    ensures
        r is Ok <==> invalid(files@.len(), *opt) is None,
        r matches Err(e) ==> invalid(files@.len(), *opt) == Some(e),
        r matches Ok(found) ==> found_by_fresh_table(files.deep_view(), *opt, found),
{
    match validate(files.len(), opt) {
        Err(e) => {
            return Err(e);
        },
        Ok(_) => {},
    }
    let mut counter = match NgramCounter::new(opt.size, opt.hashes as usize, opt.seed, Width::W8, 0) {
        Ok(counter) => counter,
        Err(e) => {
            return Err(ConfigError::Counter(e));
        },
    };
    let ghost seeds = counter.seeds();
    count_files(&mut counter, files, opt.ngram, opt.limit, opt.file_limit);
    let found = Touched {
        nonzero: counter.nonzero(),
        lanes: counter.len(),
        hashes: counter.num_hashes(),
    };
    proof {
        assert(fresh_seeds(seeds, opt.hashes as nat, opt.seed));
        let keys = corpus_keys(limited(files.deep_view(), opt.file_limit), opt.ngram as nat, opt.limit);
        lemma_after_increments_concat(
            Seq::new(lanes_in_budget(opt.size, Width::W8), |i: int| 0u64),
            seeds,
            unit_updates(keys),
            Seq::empty(),
            0xff,
        );
        assert(found == touched(seeds, files.deep_view(), *opt));
        assert(found_by_fresh_table(files.deep_view(), *opt, found));
    }
    Ok(found)
}

/// With a seed, the unique task reports the same for the same files and
/// settings, whenever it runs.
pub proof fn lemma_same_seed_same_output(files: Seq<Seq<Record>>, opt: Opt, one: Touched, other: Touched)
    requires
        opt.seed is Some,
        found_by_fresh_table(files, opt, one),
        found_by_fresh_table(files, opt, other),
    ensures
        one == other,
{
    let a = choose|seeds: Seq<HashSeed>| #[trigger]
        fresh_seeds(seeds, opt.hashes as nat, opt.seed) && one == touched(seeds, files, opt);
    let b = choose|seeds: Seq<HashSeed>| #[trigger]
        fresh_seeds(seeds, opt.hashes as nat, opt.seed) && other == touched(seeds, files, opt);
    assert(a == b);
}

/// Counting the n-grams of a file that holds the records of two files,
/// those of the first and then those of the second, gives the table that
/// counting the two files apart and merging their tables gives.
pub proof fn lemma_concatenated_files_merge(
    lanes: nat,
    initial: u64,
    seeds: Seq<HashSeed>,
    max: u64,
    first: Seq<Record>,
    second: Seq<Record>,
    n: nat,
)
    requires
        initial <= max,
    ensures
        ({
            let start = Seq::new(lanes, |i: int| initial);
            after_increments(start, seeds, unit_updates(file_keys(first + second, n)), max) == merged(
                after_increments(start, seeds, unit_updates(file_keys(first, n)), max),
                after_increments(start, seeds, unit_updates(file_keys(second, n)), max),
                initial,
                max,
            )
        }),
{
    lemma_file_keys_concat(first, second, n);
    lemma_unit_updates_concat(file_keys(first, n), file_keys(second, n));
    lemma_concatenation_merges(
        lanes,
        initial,
        seeds,
        max,
        unit_updates(file_keys(first, n)),
        unit_updates(file_keys(second, n)),
    );
}

} // verus!
