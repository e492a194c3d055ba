use wimbd::cmd::botk::{botk, Opt, KEEP_ALWAYS};
use wimbd::cmd::util::{ConfigError, DataInstance};
use wimbd::ngrams::counter::CounterError;

fn record(text: &str) -> DataInstance {
    DataInstance { text: Some(text.to_string()) }
}

fn options(ngram: usize, k: usize) -> Opt {
    Opt {
        ngram,
        limit: None,
        file_limit: None,
        k,
        size: 1 << 20,
        hashes: 5,
        seed: Some(7),
        threshold: u32::MAX,
        keep_limit: None,
    }
}

fn pairs(found: &[wimbd::cmd::ranked::RankedNgram]) -> Vec<(String, u64)> {
    found.iter().map(|r| (r.string.clone(), r.count)).collect()
}

#[test]
fn bottom_k_of_two_records() {
    let files = vec![vec![record("x y z"), record("x y z")]];
    let found = botk(&files, &options(2, 2)).unwrap();
    let mut got = pairs(&found);
    got.sort();
    assert_eq!(got, vec![("x y".to_string(), 2), ("y z".to_string(), 2)]);
    assert_eq!(found[0].rank, 1);
    assert_eq!(found[1].rank, 2);
}

#[test]
fn bottom_k_lists_the_rarest_first() {
    let files = vec![vec![record("a a a a b b b c c d")]];
    let found = botk(&files, &options(1, 2)).unwrap();
    assert_eq!(pairs(&found), vec![("d".to_string(), 1), ("c".to_string(), 2)]);
    let found = botk(&files, &options(1, 10)).unwrap();
    assert_eq!(
        pairs(&found),
        vec![
            ("d".to_string(), 1),
            ("c".to_string(), 2),
            ("b".to_string(), 3),
            ("a".to_string(), 4)
        ]
    );
}

#[test]
fn threshold_keeps_frequent_ngrams_out() {
    let files = vec![vec![record("a a a a b b b c c d")]];
    let mut opt = options(1, 10);
    opt.threshold = 3;
    let found = botk(&files, &opt).unwrap();
    assert_eq!(pairs(&found), vec![("d".to_string(), 1), ("c".to_string(), 2)]);
    opt.threshold = 0;
    assert!(botk(&files, &opt).unwrap().is_empty());
}

#[test]
fn keeping_always_changes_nothing() {
    let files = vec![vec![record("a a a a b b b c c d")], vec![record("d e e f f f")]];
    let plain = botk(&files, &options(1, 3)).unwrap();
    let mut opt = options(1, 3);
    opt.keep_limit = Some(KEEP_ALWAYS);
    let kept = botk(&files, &opt).unwrap();
    assert_eq!(plain, kept);
}

#[test]
fn dropping_never_lowers_the_counts() {
    let files = vec![vec![record("a a a a b b b c c d e e f f f g h h i j j j j j")]];
    let plain = botk(&files, &options(1, 4)).unwrap();
    let mut opt = options(1, 4);
    opt.keep_limit = Some(KEEP_ALWAYS / 2);
    for _ in 0..20 {
        let dropped = botk(&files, &opt).unwrap();
        assert!(dropped.len() <= plain.len());
        for (d, p) in dropped.iter().zip(plain.iter()) {
            assert!(p.count <= d.count);
        }
    }
}

#[test]
fn limit_zero_finds_nothing() {
    let files = vec![vec![record("a b c")]];
    let mut opt = options(1, 3);
    opt.limit = Some(0);
    assert!(botk(&files, &opt).unwrap().is_empty());
}

#[test]
fn bottom_k_rejects_wrong_settings() {
    let files = vec![vec![record("a b")]];
    let none: Vec<Vec<DataInstance>> = Vec::new();
    assert_eq!(botk(&none, &options(2, 5)).unwrap_err(), ConfigError::NoPaths);
    assert_eq!(botk(&files, &options(2, 0)).unwrap_err(), ConfigError::ZeroK);
    assert_eq!(botk(&files, &options(0, 5)).unwrap_err(), ConfigError::ZeroNgram);
    let mut opt = options(2, 5);
    opt.size = 0;
    assert_eq!(botk(&files, &opt).unwrap_err(), ConfigError::ZeroSize);
    let mut opt = options(2, 5);
    opt.hashes = 0;
    assert_eq!(botk(&files, &opt).unwrap_err(), ConfigError::ZeroHashes);
    let mut opt = options(2, 5);
    opt.keep_limit = Some(KEEP_ALWAYS + 1);
    assert_eq!(botk(&files, &opt).unwrap_err(), ConfigError::KeepOutOfRange);
    let mut opt = options(2, 5);
    opt.size = 3;
    assert_eq!(botk(&files, &opt).unwrap_err(), ConfigError::Counter(CounterError::NoLanes));
}

#[test]
fn a_keep_limit_of_zero_drops_nearly_everything() {
    // An n-gram is kept only if the upper twenty-four bits of its random
    // word are all zero.
    let text: Vec<String> = (0..200).map(|i| format!("w{}", i)).collect();
    let files = vec![vec![record(&text.join(" "))]];
    let mut opt = options(1, 50);
    opt.keep_limit = Some(0);
    let dropped = botk(&files, &opt).unwrap();
    assert!(dropped.len() <= 1);
    let plain = botk(&files, &options(1, 50)).unwrap();
    assert_eq!(plain.len(), 50);
    assert!(plain.iter().all(|r| r.count == 1));
}

#[test]
fn repeated_lookups_of_one_ngram_take_places() {
    // Each lookup of "x" is offered anew, so three of them fill the three
    // places of the first file's selection and leave no room for "y".
    let files = vec![vec![record("x x x y y y y")], vec![record("z z z z z")]];
    let found = botk(&files, &options(1, 3)).unwrap();
    assert_eq!(pairs(&found), vec![("x".to_string(), 3), ("z".to_string(), 5)]);
}

#[test]
fn the_two_passes_go_record_by_record() {
    let mut table = wimbd::ngrams::counter::NgramCounter::new(
        1 << 16,
        3,
        Some(1),
        wimbd::ngrams::lanes::Width::W32,
        wimbd::cmd::botk::LANE_MAX,
    )
    .unwrap();
    let records = vec![record("a a b"), DataInstance { text: None }, record("a c")];
    for r in records.iter() {
        wimbd::cmd::botk::discount_record(&mut table, r, 1);
    }
    let mut local = wimbd::ngrams::topk::TopKNgrams::new(2);
    for r in records.iter() {
        wimbd::cmd::botk::rare_record(&table, &mut local, r, 1, 0, 0, None);
    }
    let max = wimbd::cmd::botk::LANE_MAX;
    let drained: Vec<(String, u64)> =
        local.drain().into_iter().map(|(tokens, inverse)| (tokens.join(" "), max - inverse)).collect();
    assert_eq!(drained, vec![("b".to_string(), 1), ("c".to_string(), 1)]);
}
