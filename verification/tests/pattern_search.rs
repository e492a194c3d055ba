use wimbd::cmd::search::{
    compile_patterns, search, search_file, search_files, validate, FileMatches, MatchLocation, Opt,
    PatternMatches, SearchError,
};
use wimbd::cmd::util::{ConfigError, DataInstance};

fn record(text: &str) -> DataInstance {
    DataInstance { text: Some(text.to_string()) }
}

fn options(with_locations: bool) -> Opt {
    Opt { with_locations, limit: None, file_limit: None }
}

fn at(line: usize, start_col: usize, end_col: usize) -> MatchLocation {
    MatchLocation { line, start_col, end_col }
}

#[test]
fn digits_are_found_and_located() {
    let files = vec![vec![record("1 22 333")]];
    let found = search(&files, &vec![r"\d+".to_string()], &options(false)).unwrap();
    assert_eq!(found.len(), 1);
    assert_eq!(found[0].pattern, r"\d+");
    assert_eq!(found[0].count, 3);
    assert_eq!(found[0].matches, None);
    let found = search(&files, &vec![r"\d+".to_string()], &options(true)).unwrap();
    assert_eq!(found[0].count, 3);
    assert_eq!(
        found[0].matches,
        Some(vec![FileMatches { file: 0, locations: vec![at(1, 0, 1), at(1, 2, 4), at(1, 5, 8)] }])
    );
}

#[test]
fn matches_are_kept_file_by_file() {
    let files = vec![
        vec![record("no digits"), DataInstance { text: None }, record("a1b22")],
        vec![record("none here")],
        vec![record("7"), record("é8")],
    ];
    let patterns = vec![r"\d+".to_string(), "x".to_string(), r"\d+".to_string(), "n".to_string()];
    let found = search(&files, &patterns, &options(true)).unwrap();
    assert_eq!(found.len(), 3);
    assert_eq!(found[0].pattern, r"\d+");
    assert_eq!(found[0].count, 4);
    assert_eq!(
        found[0].matches,
        Some(vec![
            FileMatches { file: 0, locations: vec![at(3, 1, 2), at(3, 3, 5)] },
            FileMatches { file: 2, locations: vec![at(1, 0, 1), at(2, 2, 3)] },
        ])
    );
    assert_eq!(found[1].pattern, "x");
    assert_eq!(found[1].count, 0);
    assert_eq!(found[1].matches, Some(Vec::new()));
    assert_eq!(found[2].pattern, "n");
    assert_eq!(found[2].count, 3);
}

#[test]
fn limits_cut_the_search() {
    let files = vec![vec![record("1"), record("2"), record("3")], vec![record("4")]];
    let patterns = vec![r"\d".to_string()];
    let opt = Opt { with_locations: true, limit: Some(2), file_limit: Some(1) };
    let found = search(&files, &patterns, &opt).unwrap();
    assert_eq!(found[0].count, 2);
    assert_eq!(
        found[0].matches,
        Some(vec![FileMatches { file: 0, locations: vec![at(1, 0, 1), at(2, 0, 1)] }])
    );
}

#[test]
fn a_pattern_that_does_not_compile_is_named() {
    let files = vec![vec![record("1")]];
    let patterns = vec!["a".to_string(), "(".to_string(), "[".to_string()];
    match search(&files, &patterns, &options(false)) {
        Err(SearchError::BadPattern(index, message)) => {
            assert_eq!(index, 1);
            assert!(!message.is_empty());
        }
        other => panic!("unexpected {:?}", other),
    }
}

#[test]
fn pattern_search_rejects_wrong_settings() {
    let files = vec![vec![record("1")]];
    let none: Vec<Vec<DataInstance>> = Vec::new();
    let patterns = vec!["(".to_string()];
    assert_eq!(
        search(&files, &Vec::new(), &options(false)).unwrap_err(),
        SearchError::Config(ConfigError::NoPatterns)
    );
    assert_eq!(
        search(&files, &patterns, &Opt { with_locations: false, limit: None, file_limit: Some(0) })
            .unwrap_err(),
        SearchError::Config(ConfigError::ZeroFileLimit)
    );
    assert_eq!(
        search(&none, &patterns, &options(false)).unwrap_err(),
        SearchError::Config(ConfigError::NoPaths)
    );
}

#[test]
fn one_file_is_searched_with_a_compiled_pattern() {
    let re = regex::Regex::new("ab").unwrap();
    let records = vec![record("abab"), record("b"), record("cab")];
    let (count, locations) = search_file(&re, &records, None, true);
    assert_eq!(count, 3);
    assert_eq!(locations, vec![at(1, 0, 2), at(1, 2, 4), at(3, 1, 3)]);
    let (count, locations) = search_file(&re, &records, Some(1), false);
    assert_eq!(count, 2);
    assert!(locations.is_empty());
}

#[test]
fn an_empty_pattern_matches_between_all_characters() {
    let files = vec![vec![record("ab"), record("")]];
    let opt = Opt { with_locations: true, limit: None, file_limit: None };
    let found = search(&files, &vec!["".to_string()], &opt).unwrap();
    assert_eq!(found[0].count, 4);
    assert_eq!(
        found[0].matches,
        Some(vec![FileMatches {
            file: 0,
            locations: vec![at(1, 0, 0), at(1, 1, 1), at(1, 2, 2), at(2, 0, 0)]
        }])
    );
}

#[test]
fn an_expression_finds_what_its_options_say() {
    let plain = regex::Regex::new("a").unwrap();
    let folded = regex::RegexBuilder::new("a").case_insensitive(true).build().unwrap();
    let records = vec![record("A a")];
    assert_eq!(search_file(&plain, &records, None, true), (1, vec![at(1, 2, 3)]));
    assert_eq!(search_file(&folded, &records, None, true), (2, vec![at(1, 0, 1), at(1, 2, 3)]));
    let files = vec![records];
    assert_eq!(search_files(&plain, &files, &options(false)).count, 1);
    assert_eq!(search_files(&folded, &files, &options(false)).count, 2);
    assert_eq!(search_files(&folded, &files, &options(false)).pattern, "a");
}

#[test]
fn patterns_are_compiled_once_each() {
    let patterns = vec!["a+".to_string(), "b".to_string(), "a+".to_string()];
    let compiled = compile_patterns(&patterns).unwrap();
    assert_eq!(compiled.len(), 2);
    assert_eq!(compiled[0].as_str(), "a+");
    assert_eq!(compiled[1].as_str(), "b");
    let bad = vec!["a".to_string(), "a".to_string(), "(".to_string(), "[".to_string()];
    let (index, message) = compile_patterns(&bad).unwrap_err();
    assert_eq!(index, 2);
    assert!(!message.is_empty());
    assert!(compile_patterns(&Vec::new()).unwrap().is_empty());
}

#[test]
fn files_are_taken_in_one_by_one() {
    let re = regex::Regex::new("x").unwrap();
    let found = PatternMatches::new(&re, true);
    assert_eq!(found.pattern, "x");
    assert_eq!(found.count, 0);
    assert_eq!(found.matches, Some(Vec::new()));
    let found = found.add_file(0, 2, vec![at(1, 0, 1), at(3, 4, 5)]);
    let found = found.add_file(1, 0, Vec::new());
    let found = found.add_file(2, 1, vec![at(9, 9, 10)]);
    assert_eq!(found.count, 3);
    assert_eq!(
        found.matches,
        Some(vec![
            FileMatches { file: 0, locations: vec![at(1, 0, 1), at(3, 4, 5)] },
            FileMatches { file: 2, locations: vec![at(9, 9, 10)] },
        ])
    );
    let found = PatternMatches::new(&re, false).add_file(0, usize::MAX, Vec::new()).add_file(1, 5, Vec::new());
    assert_eq!(found.count, usize::MAX);
    assert_eq!(found.matches, None);
    assert_eq!(validate(1, 1, &options(false)), Ok(()));
    assert_eq!(validate(0, 1, &options(false)), Err(ConfigError::NoPaths));
}

#[test]
fn one_record_adds_to_count_and_places() {
    let re = regex::Regex::new("a").unwrap();
    let mut count = 5;
    let mut locations = vec![at(1, 0, 1)];
    wimbd::cmd::search::search_record(&re, &record("banana"), 7, true, &mut count, &mut locations);
    assert_eq!(count, 8);
    assert_eq!(locations, vec![at(1, 0, 1), at(7, 1, 2), at(7, 3, 4), at(7, 5, 6)]);
    wimbd::cmd::search::search_record(&re, &record("banana"), 8, false, &mut count, &mut locations);
    assert_eq!(count, 11);
    assert_eq!(locations.len(), 4);
    wimbd::cmd::search::search_record(&re, &DataInstance { text: None }, 9, true, &mut count, &mut locations);
    assert_eq!((count, locations.len()), (11, 4));
    let mut full = usize::MAX - 1;
    wimbd::cmd::search::search_record(&re, &record("aaa"), 1, false, &mut full, &mut locations);
    assert_eq!(full, usize::MAX);
}
