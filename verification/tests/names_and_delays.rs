use wimbd::cmd::output::{output_name, single_output, wants_made_up_name, OutputError};
use wimbd::cmd::ranked::rank_entries;
use wimbd::s3::{backoff_delay_ms, is_data_key, retries_left, retry_delay_ms, s3_uri, str_ends_with};
use wimbd::text::join;
use wimbd::tokens::{blank, tokenize};

#[test]
fn output_names_tell_the_settings() {
    assert_eq!(output_name(3, 20, 5, None, None), "n3-k20-h5.jsonl");
    assert_eq!(output_name(3, 20, 5, Some(100), None), "n3-k20-h5-limit100.jsonl");
    assert_eq!(output_name(3, 20, 5, None, Some(42)), "n3-k20-h5-seed42.jsonl");
    assert_eq!(output_name(1, 1, 255, Some(0), Some(0)), "n1-k1-h255-limit0-seed0.jsonl");
    assert_eq!(
        output_name(10, 1000, 7, Some(12345), Some(u64::MAX)),
        "n10-k1000-h7-limit12345-seed18446744073709551615.jsonl"
    );
}

#[test]
fn a_directory_or_a_bare_name_gets_a_made_up_name() {
    assert!(wants_made_up_name("out", true));
    assert!(wants_made_up_name("out.d", true));
    assert!(wants_made_up_name("results/out", false));
    assert!(!wants_made_up_name("results/out.jsonl", false));
    assert!(wants_made_up_name("results/.hidden", false));
}

#[test]
fn a_single_output_must_be_a_file() {
    assert_eq!(single_output(None), Ok(false));
    assert_eq!(single_output(Some(false)), Ok(true));
    assert_eq!(single_output(Some(true)), Err(OutputError::IsDirectory));
    assert_eq!(
        OutputError::IsDirectory.message(),
        "-o/--out must be a valid file name, not a directory"
    );
}

#[test]
fn input_objects_are_known_by_their_endings() {
    assert!(is_data_key("a/b.json.gz"));
    assert!(is_data_key("a/b.jsonl.gz"));
    assert!(is_data_key("a/b.jsonl.zstd"));
    assert!(is_data_key(".json.gz"));
    assert!(!is_data_key("a/b.json"));
    assert!(!is_data_key("a/b.json.zstd"));
    assert!(!is_data_key("a/b.jsonl.gz.tmp"));
    assert!(!is_data_key("json.gz"));
    assert!(!is_data_key(""));
    assert!(str_ends_with("abc", ""));
    assert!(str_ends_with("abc", "abc"));
    assert!(!str_ends_with("bc", "abc"));
    assert!(str_ends_with("héé", "éé"));
}

#[test]
fn locations_are_put_together() {
    assert_eq!(s3_uri("bucket", "dir/a.json.gz"), "s3://bucket/dir/a.json.gz");
    assert_eq!(s3_uri("b", ""), "s3://b/");
}

#[test]
fn delays_double_up_to_the_longest() {
    assert_eq!(backoff_delay_ms(0), 100);
    assert_eq!(backoff_delay_ms(1), 200);
    assert_eq!(backoff_delay_ms(2), 400);
    assert_eq!(backoff_delay_ms(3), 800);
    assert_eq!(backoff_delay_ms(4), 1600);
    assert_eq!(backoff_delay_ms(5), 2000);
    assert_eq!(backoff_delay_ms(6), 2000);
    assert_eq!(backoff_delay_ms(64), 2000);
    assert_eq!(backoff_delay_ms(usize::MAX), 2000);
    for attempts in 0..8 {
        let delay = retry_delay_ms(attempts);
        assert!(delay >= backoff_delay_ms(attempts));
        assert!(delay < backoff_delay_ms(attempts) + 1000);
    }
}

#[test]
fn retries_stop_at_the_number_allowed() {
    assert!(retries_left(0, None));
    assert!(retries_left(4, None));
    assert!(!retries_left(5, None));
    assert!(retries_left(0, Some(1)));
    assert!(!retries_left(1, Some(1)));
    assert!(!retries_left(0, Some(0)));
}

#[test]
fn tokens_are_the_pieces_that_are_not_blank() {
    assert_eq!(tokenize("a b a b a"), vec!["a", "b", "a", "b", "a"]);
    assert_eq!(tokenize("  The quick (\"brown\")  fox\n"), vec!["The", "quick", "(", "\"", "brown", "\"", ")", "fox"]);
    assert_eq!(tokenize("can't stop 32.3"), vec!["can't", "stop", "32.3"]);
    assert_eq!(tokenize("x\u{2003}y\tz"), vec!["x", "y", "z"]);
    assert!(tokenize("").is_empty());
    assert!(tokenize(" \n\t ").is_empty());
    assert!(blank(""));
    assert!(blank(" \u{a0}\t"));
    assert!(!blank(" a "));
}

#[test]
fn tokens_are_joined_by_the_separator() {
    let tokens = vec!["a".to_string(), "b".to_string(), "c".to_string()];
    assert_eq!(join(&tokens, " "), "a b c");
    assert_eq!(join(&tokens, ""), "abc");
    assert_eq!(join(&tokens[..1].to_vec(), ", "), "a");
    assert_eq!(join(&Vec::new(), " "), "");
    assert_eq!(join(&vec!["".to_string(), "".to_string()], "-"), "-");
}

#[test]
fn a_count_at_the_largest_value_is_flagged() {
    let entries = vec![
        (vec!["a".to_string(), "b".to_string()], u32::MAX as u64),
        (vec!["c".to_string()], 7),
    ];
    let (ranked, overflow) = rank_entries(entries.clone(), None, u32::MAX as u64);
    assert!(overflow);
    assert_eq!(ranked.len(), 2);
    assert_eq!(ranked[0].string, "a b");
    assert_eq!(ranked[0].count, u32::MAX as u64);
    assert_eq!(ranked[0].rank, 1);
    assert_eq!(ranked[1].string, "c");
    assert_eq!(ranked[1].rank, 2);
    let (_, overflow) = rank_entries(entries.clone(), None, u64::MAX);
    assert!(!overflow);
    let (ranked, _) = rank_entries(entries, Some(u32::MAX as u64), u32::MAX as u64);
    assert_eq!(ranked[0].count, 0);
    assert_eq!(ranked[1].count, u32::MAX as u64 - 7);
}

#[test]
fn tokens_of_unusual_texts() {
    assert_eq!(tokenize("naïve café"), vec!["naïve", "café"]);
    assert_eq!(tokenize("日本語 テキスト"), vec!["日", "本", "語", "テキスト"]);
    assert_eq!(tokenize("a\u{200d}b 👩‍👩‍👧 ok"), vec!["a\u{200d}b", "👩‍👩‍👧", "ok"]);
    assert_eq!(tokenize("\u{0}\u{1}"), vec!["\u{0}", "\u{1}"]);
    assert_eq!(tokenize("e\u{301}\u{301}\u{301}"), vec!["e\u{301}\u{301}\u{301}"]);
}
