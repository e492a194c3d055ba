use wimbd::cmd::unique::{unique, Opt, Touched};
use wimbd::cmd::util::{ConfigError, DataInstance};

fn record(text: &str) -> DataInstance {
    DataInstance { text: Some(text.to_string()) }
}

fn options(ngram: usize) -> Opt {
    Opt { ngram, limit: None, file_limit: None, size: 1 << 20, hashes: 5, seed: Some(3) }
}

fn estimate(found: &Touched) -> f64 {
    let lanes = found.lanes as f64;
    let hashes = found.hashes as f64;
    -(lanes / hashes) * (1.0 - found.nonzero as f64 / lanes).ln()
}

#[test]
fn unique_count_of_one_record() {
    let files = vec![vec![record("a b c d e f")]];
    let found = unique(&files, &options(2)).unwrap();
    assert_eq!(found.lanes, 1 << 20);
    assert_eq!(found.hashes, 5);
    assert!(found.nonzero <= 25);
    assert!((estimate(&found) - 5.0).abs() <= 1.0);
}

#[test]
fn repeated_ngrams_touch_no_new_lanes() {
    let once = unique(&vec![vec![record("a b c")]], &options(1)).unwrap();
    let thrice = unique(
        &vec![vec![record("a b c"), record("c b a")], vec![record("b a c a b c")]],
        &options(1),
    )
    .unwrap();
    assert_eq!(once, thrice);
}

#[test]
fn nothing_read_touches_nothing() {
    let mut opt = options(2);
    opt.limit = Some(0);
    let found = unique(&vec![vec![record("a b c d")]], &opt).unwrap();
    assert_eq!(found.nonzero, 0);
    let found = unique(&vec![vec![DataInstance { text: None }]], &options(2)).unwrap();
    assert_eq!(found.nonzero, 0);
    let found = unique(&vec![vec![record("a")]], &options(2)).unwrap();
    assert_eq!(found.nonzero, 0);
}

#[test]
fn lanes_follow_the_budget() {
    let mut opt = options(1);
    opt.size = 17;
    opt.hashes = 3;
    let found = unique(&vec![vec![record("a b")]], &opt).unwrap();
    assert_eq!(found.lanes, 17);
    assert_eq!(found.hashes, 3);
    assert!(found.nonzero >= 1 && found.nonzero <= 6);
}

#[test]
fn unique_rejects_wrong_settings() {
    let files = vec![vec![record("a b")]];
    let none: Vec<Vec<DataInstance>> = Vec::new();
    assert_eq!(unique(&none, &options(2)).unwrap_err(), ConfigError::NoPaths);
    assert_eq!(unique(&files, &options(0)).unwrap_err(), ConfigError::ZeroNgram);
    let mut opt = options(2);
    opt.size = 0;
    assert_eq!(unique(&files, &opt).unwrap_err(), ConfigError::ZeroSize);
    let mut opt = options(2);
    opt.hashes = 0;
    assert_eq!(unique(&files, &opt).unwrap_err(), ConfigError::ZeroHashes);
}

#[test]
fn the_estimate_is_close_for_a_sparse_table() {
    let words: Vec<String> = (0..2000).map(|i| format!("w{}", i)).collect();
    let files = vec![vec![record(&words.join(" ")), record(&words[..500].join(" "))]];
    let found = unique(&files, &options(1)).unwrap();
    let estimated = estimate(&found);
    assert!((estimated - 2000.0).abs() <= 20.0, "estimated {}", estimated);
    let found = unique(&files, &options(2)).unwrap();
    let estimated = estimate(&found);
    assert!((estimated - 1999.0).abs() <= 20.0, "estimated {}", estimated);
}

#[test]
fn two_files_count_as_their_concatenation() {
    let apart = vec![
        vec![record("a b c d"), record("b c")],
        vec![record("c d e"), DataInstance { text: None }, record("a b")],
    ];
    let together = vec![vec![
        record("a b c d"),
        record("b c"),
        record("c d e"),
        DataInstance { text: None },
        record("a b"),
    ]];
    assert_eq!(unique(&apart, &options(2)).unwrap(), unique(&together, &options(2)).unwrap());
    let swapped = vec![
        vec![record("c d e"), DataInstance { text: None }, record("a b")],
        vec![record("a b c d"), record("b c")],
    ];
    assert_eq!(unique(&apart, &options(2)).unwrap(), unique(&swapped, &options(2)).unwrap());
}

#[test]
fn one_record_is_counted_at_a_time() {
    let mut table = wimbd::ngrams::counter::NgramCounter::new(
        1 << 16,
        2,
        Some(1),
        wimbd::ngrams::lanes::Width::W8,
        0,
    )
    .unwrap();
    wimbd::cmd::unique::count_record(&mut table, &DataInstance { text: None }, 1);
    assert_eq!(table.nonzero(), 0);
    wimbd::cmd::unique::count_record(&mut table, &record("a a a"), 1);
    assert_eq!(table.nonzero(), 2);
    wimbd::cmd::unique::count_record(&mut table, &record("a"), 1);
    assert_eq!(table.nonzero(), 2);
}
