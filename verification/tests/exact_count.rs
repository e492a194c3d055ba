use wimbd::cmd::count::{count, count_occurences, term_ends_at, validate, Opt, SearchCount};
use wimbd::cmd::util::{ConfigError, DataInstance};

fn record(text: &str) -> DataInstance {
    DataInstance { text: Some(text.to_string()) }
}

fn words(text: &str) -> Vec<String> {
    text.split(' ').filter(|w| !w.is_empty()).map(|w| w.to_string()).collect()
}

fn terms(list: &[&str]) -> Vec<SearchCount> {
    list.iter().map(|t| SearchCount { tokens: words(t), count: 0 }).collect()
}

fn counts_of(counts: &[SearchCount]) -> Vec<(String, usize)> {
    counts.iter().map(|c| (c.tokens.join(" "), c.count)).collect()
}

const NO_LIMITS: Opt = Opt { limit: None, file_limit: None };

#[test]
fn exact_count_of_a_pair() {
    let files = vec![vec![record("a b a b")]];
    let found = count(&files, &vec!["a b".to_string()], &NO_LIMITS).unwrap();
    assert_eq!(counts_of(&found), vec![("a b".to_string(), 2)]);
}

#[test]
fn occurrences_may_overlap() {
    let mut counts = terms(&["a a", "a", "a a a a", "b"]);
    count_occurences(1, &words("a a a"), &mut counts);
    assert_eq!(
        counts_of(&counts),
        vec![
            ("a a".to_string(), 2),
            ("a".to_string(), 3),
            ("a a a a".to_string(), 0),
            ("b".to_string(), 0)
        ]
    );
    count_occurences(1, &words("b a a"), &mut counts);
    assert_eq!(counts[0].count, 3);
    assert_eq!(counts[1].count, 5);
    assert_eq!(counts[3].count, 1);
}

#[test]
fn occurrences_that_end_before_the_bound_are_left_out() {
    let mut counts = terms(&["a"]);
    count_occurences(3, &words("a a a a"), &mut counts);
    assert_eq!(counts[0].count, 2);
    let mut counts = terms(&["a"]);
    count_occurences(5, &words("a a a a"), &mut counts);
    assert_eq!(counts[0].count, 0);
    let mut counts = terms(&["a"]);
    count_occurences(0, &words("a a a a"), &mut counts);
    assert_eq!(counts[0].count, 4);
}

#[test]
fn an_empty_term_ends_everywhere() {
    let mut counts = vec![SearchCount { tokens: Vec::new(), count: 0 }];
    count_occurences(0, &words("a b c"), &mut counts);
    assert_eq!(counts[0].count, 4);
}

#[test]
fn counts_pin_at_the_largest_value() {
    let mut counts = vec![SearchCount { tokens: words("a"), count: usize::MAX - 1 }];
    count_occurences(1, &words("a a a"), &mut counts);
    assert_eq!(counts[0].count, usize::MAX);
}

#[test]
fn a_term_ends_where_its_tokens_stand() {
    let tokens = words("x a b y");
    assert!(term_ends_at(&tokens, &words("a b"), 3));
    assert!(!term_ends_at(&tokens, &words("a b"), 2));
    assert!(!term_ends_at(&tokens, &words("a b"), 4));
    assert!(!term_ends_at(&tokens, &words("a b"), 1));
    assert!(!term_ends_at(&tokens, &words("a b"), 5));
    assert!(term_ends_at(&tokens, &words("x a b y"), 4));
    assert!(!term_ends_at(&tokens, &words("w x a b y"), 4));
}

#[test]
fn exact_counts_over_files_and_limits() {
    let files = vec![
        vec![record("the cat"), DataInstance { text: None }, record("the cat and the cat")],
        vec![record("a cat"), record("the cat")],
        vec![record("the cat the cat the cat")],
    ];
    let searches = vec!["the cat".to_string(), "cat".to_string(), "the cat".to_string(), "dog".to_string()];
    let found = count(&files, &searches, &NO_LIMITS).unwrap();
    assert_eq!(
        counts_of(&found),
        vec![("the cat".to_string(), 7), ("cat".to_string(), 8), ("dog".to_string(), 0)]
    );
    let found = count(&files, &searches, &Opt { limit: Some(2), file_limit: Some(2) }).unwrap();
    assert_eq!(
        counts_of(&found),
        vec![("the cat".to_string(), 2), ("cat".to_string(), 3), ("dog".to_string(), 0)]
    );
    let found = count(&files, &searches, &Opt { limit: Some(0), file_limit: None }).unwrap();
    assert_eq!(
        counts_of(&found),
        vec![("the cat".to_string(), 0), ("cat".to_string(), 0), ("dog".to_string(), 0)]
    );
}

#[test]
fn exact_count_rejects_wrong_settings() {
    let files = vec![vec![record("a b")]];
    let none: Vec<Vec<DataInstance>> = Vec::new();
    let searches = vec!["a".to_string()];
    assert_eq!(count(&files, &Vec::new(), &NO_LIMITS).unwrap_err(), ConfigError::NoSearchTerms);
    assert_eq!(
        count(&files, &searches, &Opt { limit: None, file_limit: Some(0) }).unwrap_err(),
        ConfigError::ZeroFileLimit
    );
    assert_eq!(count(&none, &searches, &NO_LIMITS).unwrap_err(), ConfigError::NoPaths);
    assert_eq!(
        count(&none, &Vec::new(), &Opt { limit: None, file_limit: Some(0) }).unwrap_err(),
        ConfigError::NoSearchTerms
    );
}

#[test]
fn exact_count_settings_are_checked_in_order() {
    assert_eq!(validate(1, 1, &NO_LIMITS), Ok(()));
    assert_eq!(validate(0, 0, &Opt { limit: None, file_limit: Some(0) }), Err(ConfigError::NoSearchTerms));
    assert_eq!(validate(0, 1, &Opt { limit: None, file_limit: Some(0) }), Err(ConfigError::ZeroFileLimit));
    assert_eq!(validate(0, 1, &NO_LIMITS), Err(ConfigError::NoPaths));
}

#[test]
fn one_record_is_searched_at_a_time() {
    let mut counts = terms(&["a b", "b"]);
    wimbd::cmd::count::count_record(1, &record("a b a b"), &mut counts);
    wimbd::cmd::count::count_record(1, &DataInstance { text: None }, &mut counts);
    wimbd::cmd::count::count_record(1, &record("b"), &mut counts);
    assert_eq!(counts_of(&counts), vec![("a b".to_string(), 2), ("b".to_string(), 3)]);
}
