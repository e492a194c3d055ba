use wimbd::cmd::topk::{topk, Opt};
use wimbd::cmd::util::{ConfigError, DataInstance};
use wimbd::ngrams::counter::CounterError;

fn record(text: &str) -> DataInstance {
    DataInstance { text: Some(text.to_string()) }
}

fn options(ngram: usize, k: usize) -> Opt {
    Opt {
        ngram,
        limit: None,
        file_limit: None,
        topk: k,
        size: 1 << 20,
        hashes: 5,
        seed: Some(42),
        threshold: 1,
        use_u64: false,
    }
}

fn pairs(found: &wimbd::cmd::topk::Found) -> Vec<(String, u64)> {
    found.ranked.iter().map(|r| (r.string.clone(), r.count)).collect()
}

#[test]
fn top_k_of_one_record() {
    let files = vec![vec![record("a b a b a")]];
    let found = topk(&files, &options(2, 5)).unwrap();
    let mut got = pairs(&found);
    got.sort();
    assert_eq!(got, vec![("a b".to_string(), 2), ("b a".to_string(), 2)]);
    assert!(!found.overflow);
    assert_eq!(found.ranked[0].rank, 1);
    assert_eq!(found.ranked[1].rank, 2);
    let first = &found.ranked[0];
    assert_eq!(first.tokens.join(" "), first.string);
    assert_eq!(first.tokens.len(), 2);
}

#[test]
fn top_k_of_two_records() {
    let files = vec![vec![record("x y z"), record("x y z")]];
    let found = topk(&files, &options(3, 1)).unwrap();
    assert_eq!(pairs(&found), vec![("x y z".to_string(), 2)]);
    assert_eq!(found.ranked[0].tokens, vec!["x".to_string(), "y".to_string(), "z".to_string()]);
    assert_eq!(found.ranked[0].rank, 1);
}

#[test]
fn top_k_over_two_files() {
    let files = vec![vec![record("x y z")], vec![record("x y z")]];
    let found = topk(&files, &options(3, 1)).unwrap();
    assert_eq!(pairs(&found), vec![("x y z".to_string(), 2)]);
}

#[test]
fn top_k_is_sorted_by_count() {
    let files = vec![vec![record("a a a a b b b c c d")]];
    let found = topk(&files, &options(1, 10)).unwrap();
    assert_eq!(
        pairs(&found),
        vec![("a".to_string(), 4), ("b".to_string(), 3), ("c".to_string(), 2)]
    );
}

#[test]
fn threshold_keeps_rare_ngrams_out() {
    let files = vec![vec![record("a b c d e")]];
    let found = topk(&files, &options(1, 5)).unwrap();
    assert!(found.ranked.is_empty());
    let mut opt = options(1, 5);
    opt.threshold = 0;
    let found = topk(&files, &opt).unwrap();
    assert_eq!(found.ranked.len(), 5);
    assert!(found.ranked.iter().all(|r| r.count == 1));
}

#[test]
fn top_k_with_limit_zero_reads_nothing() {
    let files = vec![vec![record("a a a a")]];
    let mut opt = options(1, 5);
    opt.limit = Some(0);
    let found = topk(&files, &opt).unwrap();
    assert!(found.ranked.is_empty());
    assert!(!found.overflow);
}

#[test]
fn limit_and_file_limit_cut_the_input() {
    let files = vec![
        vec![record("a a"), record("a a"), record("b b b b b b")],
        vec![record("c c c c c c c c")],
    ];
    let mut opt = options(1, 5);
    opt.limit = Some(2);
    opt.file_limit = Some(1);
    let found = topk(&files, &opt).unwrap();
    assert_eq!(pairs(&found), vec![("a".to_string(), 4)]);
}

#[test]
fn records_without_text_give_no_output() {
    let files = vec![vec![DataInstance { text: None }, DataInstance { text: None }]];
    let found = topk(&files, &options(2, 5)).unwrap();
    assert!(found.ranked.is_empty());
    assert!(!found.overflow);
}

#[test]
fn same_seed_gives_the_same_output() {
    let files = vec![
        vec![record("the cat sat on the mat the cat sat"), record("on the mat the cat")],
        vec![record("the cat sat on the mat")],
    ];
    let mut opt = options(2, 3);
    opt.size = 64;
    let first = topk(&files, &opt).unwrap();
    let second = topk(&files, &opt).unwrap();
    assert_eq!(first.ranked, second.ranked);
    assert_eq!(first.overflow, second.overflow);
}

#[test]
fn top_k_rejects_wrong_settings() {
    let files = vec![vec![record("a b")]];
    let none: Vec<Vec<DataInstance>> = Vec::new();
    assert_eq!(topk(&none, &options(2, 5)).unwrap_err(), ConfigError::NoPaths);
    assert_eq!(topk(&files, &options(2, 0)).unwrap_err(), ConfigError::ZeroK);
    assert_eq!(topk(&files, &options(0, 5)).unwrap_err(), ConfigError::ZeroNgram);
    let mut opt = options(2, 5);
    opt.size = 0;
    assert_eq!(topk(&files, &opt).unwrap_err(), ConfigError::ZeroSize);
    let mut opt = options(2, 5);
    opt.hashes = 0;
    assert_eq!(topk(&files, &opt).unwrap_err(), ConfigError::ZeroHashes);
    let mut opt = options(2, 5);
    opt.size = 3;
    assert_eq!(topk(&files, &opt).unwrap_err(), ConfigError::Counter(CounterError::NoLanes));
    let mut opt = options(0, 0);
    opt.size = 0;
    assert_eq!(topk(&none, &opt).unwrap_err(), ConfigError::NoPaths);
    assert_eq!(topk(&files, &opt).unwrap_err(), ConfigError::ZeroK);
}

#[test]
fn punctuation_makes_tokens_of_its_own() {
    let files = vec![vec![record("a, b. a, b.")]];
    let found = topk(&files, &options(2, 10)).unwrap();
    let mut got = pairs(&found);
    got.sort();
    assert_eq!(
        got,
        vec![(", b".to_string(), 2), ("a ,".to_string(), 2), ("b .".to_string(), 2)]
    );
}

#[test]
fn repeated_entries_of_one_ngram_take_places() {
    // The selection holds an n-gram once for each count it was offered
    // with, so with two places "a" at 3 and at 4 leaves no room for "b".
    let files = vec![vec![record("a a a a b b b c c d")]];
    let found = topk(&files, &options(1, 2)).unwrap();
    assert_eq!(pairs(&found), vec![("a".to_string(), 4)]);
}

#[test]
fn a_later_file_can_leave_an_old_count_standing() {
    // In the second file the repeats of "y" fill the file's selection, so
    // the second "k" is not taken in and the count from the first file
    // stands.
    let files = vec![vec![record("k")], vec![record("y y y y k")]];
    let mut opt = options(1, 3);
    opt.threshold = 0;
    let found = topk(&files, &opt).unwrap();
    assert_eq!(pairs(&found), vec![("y".to_string(), 4), ("k".to_string(), 1)]);
    let one = vec![vec![record("k"), record("y y y y k")]];
    let found = topk(&one, &opt).unwrap();
    assert_eq!(pairs(&found), vec![("y".to_string(), 4)]);
}

#[test]
fn records_are_counted_one_by_one() {
    let mut table = wimbd::ngrams::counter::NgramCounter::new(
        1 << 16,
        3,
        Some(1),
        wimbd::ngrams::lanes::Width::W32,
        0,
    )
    .unwrap();
    let mut local = wimbd::ngrams::topk::TopKNgrams::new(3);
    wimbd::cmd::topk::collect_record(&mut table, &mut local, &record("a b a b a"), 2, 1, 0);
    wimbd::cmd::topk::collect_record(&mut table, &mut local, &DataInstance { text: None }, 2, 1, 0);
    wimbd::cmd::topk::collect_record(&mut table, &mut local, &record("a b"), 2, 1, 0);
    let drained: Vec<(String, u64)> =
        local.drain().into_iter().map(|(tokens, count)| (tokens.join(" "), count)).collect();
    assert_eq!(drained, vec![("a b".to_string(), 3), ("b a".to_string(), 2)]);
}
