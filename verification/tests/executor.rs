use wimbd::cmd::util::{
    expanded, glob_pattern, parse_size_default_to_gb, shuffle_paths, worker_count, ConfigError,
    DataExecutor, FileProgress, Next, SizeError,
};
use wimbd::ngrams::counter::CounterError;

#[test]
fn workers_are_bounded_by_request_machine_and_inputs() {
    assert_eq!(worker_count(None, 8, 100), 8);
    assert_eq!(worker_count(None, 128, 100), 64);
    assert_eq!(worker_count(None, 128, 10), 10);
    assert_eq!(worker_count(Some(4), 8, 100), 4);
    assert_eq!(worker_count(Some(16), 8, 100), 8);
    assert_eq!(worker_count(Some(100), 128, 1000), 64);
    assert_eq!(worker_count(Some(0), 8, 100), 1);
    assert_eq!(worker_count(None, 8, 0), 1);
    assert_eq!(worker_count(None, 0, 5), 1);
}

#[test]
fn a_new_executor_has_seen_nothing() {
    let executor = DataExecutor::new(3, Some(2), Some(10), true);
    assert_eq!(executor.total_lines, 0);
    assert_eq!(executor.total_bytes, 0);
    assert_eq!(executor.max_retries, 0);
    assert_eq!(executor.limit, Some(10));
    assert!(!executor.early_exit);
    assert_eq!(executor.error, None);
    assert_eq!(executor.error_count, 0);
    assert_eq!(executor.files_done, 0);
    assert!(executor.max_workers >= 1 && executor.max_workers <= 2);
    assert!(executor.quiet);
    assert!(executor.hide_file_progress());
    assert!(!executor.has_errors());
    assert_eq!(executor.join(0), Ok(0));
    let executor = DataExecutor::new(1, None, None, false);
    assert_eq!(executor.max_workers, 1);
    assert!(!executor.hide_file_progress());
}

#[test]
fn many_workers_hide_the_progress_of_files() {
    let mut executor = DataExecutor::new(100, None, None, false);
    executor.max_workers = 32;
    assert!(!executor.hide_file_progress());
    executor.max_workers = 33;
    assert!(executor.hide_file_progress());
}

#[test]
fn only_files_and_object_store_locations_are_begun() {
    let mut executor = DataExecutor::new(3, None, None, true);
    assert!(executor.accepts("data/a.json.gz", true));
    assert!(executor.accepts("s3://bucket/a.json.gz", false));
    assert!(!executor.early_exit);
    assert!(!executor.accepts("data/missing.json.gz", false));
    assert!(executor.early_exit);
    assert!(executor.has_errors());
    assert!(executor.accepts("data/a.json.gz", true));
    assert!(executor.early_exit);
    assert_eq!(executor.join(0), Err("Thread worker(s) finished with errors".to_string()));
}

#[test]
fn a_file_read_to_its_end_adds_to_the_totals() {
    let mut executor = DataExecutor::new(3, None, None, true);
    executor.succeeded(10, 1000);
    executor.succeeded(5, 500);
    assert_eq!(executor.total_lines, 15);
    assert_eq!(executor.total_bytes, 1500);
    assert_eq!(executor.files_done, 2);
    executor.succeeded(usize::MAX, 1);
    assert_eq!(executor.total_lines, usize::MAX);
    assert_eq!(executor.total_bytes, 1501);
}

#[test]
fn without_retries_the_first_failure_stops_everything() {
    let mut executor = DataExecutor::new(3, None, None, true);
    assert_eq!(executor.failed(0, "bad line".to_string()), Next::GiveUp);
    assert!(executor.early_exit);
    assert_eq!(executor.error_count, 1);
    assert!(executor.done(2, 5, 0));
    assert_eq!(executor.join(0), Err("bad line".to_string()));
}

#[test]
fn retries_are_used_up_one_by_one() {
    let mut executor = DataExecutor::new(3, None, None, true);
    executor.max_retries = 2;
    assert_eq!(executor.failed(0, "first".to_string()), Next::Retry);
    assert_eq!(executor.failed(1, "second".to_string()), Next::Retry);
    assert!(!executor.early_exit);
    assert_eq!(executor.error_count, 2);
    assert_eq!(executor.error, Some("second".to_string()));
    assert_eq!(executor.join(0), Ok(2));
    assert_eq!(executor.join(1), Err("second".to_string()));
    assert_eq!(executor.failed(2, "third".to_string()), Next::GiveUp);
    assert!(executor.early_exit);
    assert_eq!(executor.join(0), Err("third".to_string()));
}

#[test]
fn the_first_fatal_error_is_the_one_returned() {
    let mut executor = DataExecutor::new(3, None, None, true);
    assert_eq!(executor.failed(0, "first".to_string()), Next::GiveUp);
    assert_eq!(executor.failed(0, "second".to_string()), Next::GiveUp);
    assert_eq!(executor.error_count, 2);
    assert_eq!(executor.error, Some("first".to_string()));
    assert_eq!(executor.join(0), Err("first".to_string()));
    let mut executor = DataExecutor::new(3, None, None, true);
    executor.max_retries = 1;
    assert_eq!(executor.failed(0, "mended".to_string()), Next::Retry);
    assert_eq!(executor.failed(1, "fatal".to_string()), Next::GiveUp);
    assert_eq!(executor.failed(0, "later".to_string()), Next::Retry);
    assert_eq!(executor.join(0), Err("fatal".to_string()));
    let mut executor = DataExecutor::new(3, None, None, true);
    assert!(!executor.accepts("missing", false));
    assert_eq!(executor.failed(0, "after the stop".to_string()), Next::GiveUp);
    assert_eq!(executor.join(0), Err("Thread worker(s) finished with errors".to_string()));
}

#[test]
fn the_pass_is_done_when_nothing_runs_or_something_broke() {
    let mut executor = DataExecutor::new(3, None, None, true);
    assert!(executor.done(0, 0, 0));
    assert!(!executor.done(1, 0, 0));
    assert!(!executor.done(0, 1, 0));
    assert!(executor.done(1, 1, 1));
    executor.early_exit = true;
    assert!(executor.done(1, 1, 0));
}

#[test]
fn lines_are_counted_until_the_workers_are_stopped() {
    let mut progress = FileProgress::new();
    assert_eq!(progress.line(10, false), Some(1));
    assert_eq!(progress.line(0, false), Some(2));
    assert_eq!(progress.line(5, true), None);
    assert_eq!(progress, FileProgress { total_lines: 2, total_bytes: 10 });
    assert_eq!(progress.line(7, false), Some(3));
    assert_eq!(progress.total_bytes, 17);
    assert!(progress.wants_more(0, None));
    assert!(progress.wants_more(2, Some(3)));
    assert!(!progress.wants_more(3, Some(3)));
    assert!(!progress.wants_more(0, Some(0)));
}

#[test]
fn sizes_without_unit_count_gibibytes() {
    assert_eq!(parse_size_default_to_gb("4"), Ok(4 << 30));
    assert_eq!(parse_size_default_to_gb("4GiB"), Ok(4 << 30));
    assert_eq!(parse_size_default_to_gb("500M"), Ok(500_000_000));
    assert_eq!(parse_size_default_to_gb("8 KiB"), Ok(8192));
    assert_eq!(parse_size_default_to_gb("0.5"), Ok(1 << 29));
    assert_eq!(parse_size_default_to_gb("0"), Ok(0));
    assert_eq!(parse_size_default_to_gb("10 B"), Ok(10));
}

#[test]
fn sizes_that_cannot_be_read() {
    assert_eq!(parse_size_default_to_gb(""), Err(SizeError::Empty));
    assert_eq!(parse_size_default_to_gb("^_^"), Err(SizeError::InvalidDigit));
    assert_eq!(parse_size_default_to_gb("lots"), Err(SizeError::InvalidDigit));
    assert_eq!(parse_size_default_to_gb("9999999999999999999"), Err(SizeError::PosOverflow));
    assert_eq!(parse_size_default_to_gb("99999999999"), Err(SizeError::PosOverflow));
    assert_eq!(parse_size_default_to_gb("1e30 B"), Err(SizeError::PosOverflow));
}

#[test]
fn every_error_has_its_words() {
    assert_eq!(ConfigError::NoPaths.message(), "at least one path is required");
    assert_eq!(ConfigError::ZeroK.message(), "-k/--topk must be greater than 0");
    assert_eq!(ConfigError::ZeroSize.message(), "--size must be greater than 0");
    assert_eq!(ConfigError::ZeroHashes.message(), "-h/--hashes must be greater than 0");
    assert_eq!(ConfigError::ZeroNgram.message(), "-n/--ngram must be greater than 0");
    assert_eq!(
        ConfigError::KeepOutOfRange.message(),
        "--p-keep must be between in the interval (0, 1]"
    );
    assert_eq!(
        ConfigError::NoSearchTerms.message(),
        "At least one -s/--search term is required"
    );
    assert_eq!(
        ConfigError::NoPatterns.message(),
        "At least one -p/--pattern regex term is required"
    );
    assert_eq!(ConfigError::ZeroFileLimit.message(), "File limit cannot be 0");
    assert!(!ConfigError::Counter(CounterError::NoLanes).message().is_empty());
    assert!(!ConfigError::Counter(CounterError::NoHashes).message().is_empty());
    assert!(!ConfigError::Counter(CounterError::InitialTooLarge).message().is_empty());
    assert!(!ConfigError::Counter(CounterError::TooManyHashes).message().is_empty());
}

#[test]
fn shuffling_keeps_the_paths() {
    let paths: Vec<String> = (0..50).map(|i| format!("file{}.json.gz", i)).collect();
    let mut first = paths.clone();
    shuffle_paths(&mut first, Some(9));
    let mut second = paths.clone();
    shuffle_paths(&mut second, Some(9));
    assert_eq!(first, second);
    assert_ne!(first, paths);
    let mut sorted = first.clone();
    sorted.sort();
    let mut expected = paths.clone();
    expected.sort();
    assert_eq!(sorted, expected);
    let mut third = paths.clone();
    shuffle_paths(&mut third, None);
    third.sort();
    assert_eq!(third, expected);
}

#[test]
fn directories_stand_for_the_input_files_found_in_them() {
    assert_eq!(glob_pattern("data"), "data/**/*");
    assert_eq!(expanded("a.json.gz", None), Ok(vec!["a.json.gz".to_string()]));
    assert_eq!(expanded("notes.txt", None), Ok(vec!["notes.txt".to_string()]));
    let found = vec![
        "d/a.json.gz".to_string(),
        "d/notes.txt".to_string(),
        "d/sub".to_string(),
        "d/sub/b.jsonl.gz".to_string(),
        "d/x.jsonfoo.gz".to_string(),
        "d/c.jsonl.zstd".to_string(),
        "d/e.json.zstd".to_string(),
    ];
    assert_eq!(
        expanded("d", Some(found)),
        Ok(vec![
            "d/a.json.gz".to_string(),
            "d/sub/b.jsonl.gz".to_string(),
            "d/c.jsonl.zstd".to_string()
        ])
    );
    assert_eq!(
        expanded("data", Some(Vec::new())),
        Err("No JSON Gz files found in 'data'".to_string())
    );
    assert_eq!(
        expanded("data", Some(vec!["data/notes.txt".to_string()])),
        Err("No JSON Gz files found in 'data'".to_string())
    );
}

#[test]
fn sizes_that_round_past_the_largest_number_are_not_read() {
    assert_eq!(parse_size_default_to_gb("184467440737095516155 B"), Err(SizeError::TooManyDigits));
    assert_eq!(parse_size_default_to_gb("18446744073709551615.5 B"), Err(SizeError::TooManyDigits));
    assert_eq!(parse_size_default_to_gb("0018_446_744_073_709_551_615 9 B"), Err(SizeError::TooManyDigits));
    assert_eq!(parse_size_default_to_gb("184467440737095516154 B"), Err(SizeError::PosOverflow));
    assert_eq!(parse_size_default_to_gb("18446744073709551615.4 B"), Ok(u64::MAX));
    assert_eq!(parse_size_default_to_gb("18446744073709551615 B"), Ok(u64::MAX));
    assert_eq!(parse_size_default_to_gb("28446744073709551615.5 B"), Err(SizeError::PosOverflow));
}

#[test]
fn sizes_of_many_digits_are_read() {
    assert_eq!(parse_size_default_to_gb("00000000000000000001"), Ok(1 << 30));
    assert_eq!(parse_size_default_to_gb("000000000000000000001"), Ok(1 << 30));
    assert_eq!(parse_size_default_to_gb("1.000000000000000000000000 B"), Ok(1));
    assert_eq!(parse_size_default_to_gb("0.000000000000000000000001 B"), Ok(0));
    assert_eq!(parse_size_default_to_gb("9999999999999999999 B"), Ok(9999999999999999999));
    assert_eq!(parse_size_default_to_gb("99999999999999999999"), Err(SizeError::PosOverflow));
}

#[test]
fn few_paths_are_shuffled_too() {
    let mut none: Vec<String> = Vec::new();
    shuffle_paths(&mut none, Some(1));
    assert!(none.is_empty());
    shuffle_paths(&mut none, None);
    assert!(none.is_empty());
    let mut one = vec!["a".to_string()];
    shuffle_paths(&mut one, Some(1));
    assert_eq!(one, vec!["a".to_string()]);
}
