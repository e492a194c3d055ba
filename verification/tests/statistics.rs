use std::collections::VecDeque;
use wimbd::cmd::stats::{DocumentPointer, LocalStats, Stats};
use wimbd::cmd::util::DataInstance;

fn pointer(line: usize, num_tokens: usize) -> DocumentPointer {
    DocumentPointer { path: "a.json.gz".to_string(), line, num_tokens }
}

fn lines(docs: &VecDeque<DocumentPointer>) -> Vec<(usize, usize)> {
    docs.iter().map(|d| (d.line, d.num_tokens)).collect()
}

#[test]
fn defaults_are_empty() {
    let stats = Stats::default();
    assert_eq!(stats.total_tokens, 0);
    assert_eq!(stats.total_documents, 0);
    assert_eq!(stats.total_bytes, 0);
    assert_eq!(stats.document_max_tokens, 0);
    assert_eq!(stats.document_min_tokens, usize::MAX);
    assert!(stats.max_token_documents.is_empty());
    assert!(stats.min_token_documents.is_empty());
    let local = LocalStats::default();
    assert_eq!(local.total_tokens, 0);
    assert_eq!(local.total_documents, 0);
    assert_eq!(local.document_max_tokens, 0);
    assert_eq!(local.document_min_tokens, usize::MAX);
    assert!(local.max_token_documents.is_empty());
    assert!(local.min_token_documents.is_empty());
}

#[test]
fn display_values_are_separated_by_commas() {
    let mut stats = Stats::default();
    stats.total_tokens = 1234567;
    stats.total_documents = 1000;
    stats.total_bytes = 999;
    stats.document_max_tokens = 12345;
    stats.document_min_tokens = 0;
    let values = stats.get_display_values();
    assert_eq!(
        values,
        vec![
            ("total tokens".to_string(), "1,234,567".to_string()),
            ("total documents".to_string(), "1,000".to_string()),
            ("total bytes".to_string(), "999".to_string()),
            ("max tokens per document".to_string(), "12,345".to_string()),
            ("min tokens per document".to_string(), "0".to_string()),
        ]
    );
}

#[test]
fn display_values_of_the_largest_number() {
    let mut stats = Stats::default();
    stats.total_tokens = 100;
    stats.total_bytes = 1_000_000;
    let values = stats.get_display_values();
    assert_eq!(values[0].1, "100");
    assert_eq!(values[2].1, "1,000,000");
    if usize::MAX == 18446744073709551615 {
        assert_eq!(values[4].1, "18,446,744,073,709,551,615");
    }
}

#[test]
fn pruning_drops_only_the_stale_head() {
    let mut stats = Stats::default();
    stats.document_max_tokens = 10;
    stats.document_min_tokens = 2;
    stats.max_token_documents = VecDeque::from(vec![pointer(1, 3), pointer(2, 9), pointer(3, 10), pointer(4, 5)]);
    stats.min_token_documents = VecDeque::from(vec![pointer(5, 7), pointer(6, 2), pointer(7, 8)]);
    stats.prune_documents();
    assert_eq!(lines(&stats.max_token_documents), vec![(3, 10), (4, 5)]);
    assert_eq!(lines(&stats.min_token_documents), vec![(6, 2), (7, 8)]);
    stats.prune_documents();
    assert_eq!(lines(&stats.max_token_documents), vec![(3, 10), (4, 5)]);
    assert_eq!(lines(&stats.min_token_documents), vec![(6, 2), (7, 8)]);
}

#[test]
fn pruning_can_empty_a_list() {
    let mut stats = Stats::default();
    stats.document_max_tokens = 10;
    stats.document_min_tokens = 0;
    stats.max_token_documents = VecDeque::from(vec![pointer(1, 3), pointer(2, 9)]);
    stats.min_token_documents = VecDeque::from(vec![pointer(5, 7)]);
    stats.prune_documents();
    assert!(stats.max_token_documents.is_empty());
    assert!(stats.min_token_documents.is_empty());
}

#[test]
fn a_record_without_text_only_counts_as_a_document() {
    let mut local = LocalStats::default();
    local.record(None, "a.json.gz", 1);
    assert_eq!(local.total_documents, 1);
    assert_eq!(local.total_tokens, 0);
    assert_eq!(local.document_max_tokens, 0);
    assert_eq!(local.document_min_tokens, usize::MAX);
    assert!(local.max_token_documents.is_empty());
    assert!(local.min_token_documents.is_empty());
}

#[test]
fn records_widen_the_extremes_and_are_pointed_to() {
    let mut local = LocalStats::default();
    local.record(Some(5), "a.json.gz", 1);
    local.record(Some(3), "a.json.gz", 2);
    local.record(Some(5), "a.json.gz", 3);
    local.record(Some(4), "a.json.gz", 4);
    assert_eq!(local.total_documents, 4);
    assert_eq!(local.total_tokens, 17);
    assert_eq!(local.document_max_tokens, 5);
    assert_eq!(local.document_min_tokens, 3);
    let max: Vec<usize> = local.max_token_documents.iter().map(|d| d.line).collect();
    let min: Vec<usize> = local.min_token_documents.iter().map(|d| d.line).collect();
    assert_eq!(max, vec![1, 3]);
    assert_eq!(min, vec![1, 2]);
    assert_eq!(local.max_token_documents[0].path, "a.json.gz");
}

#[test]
fn totals_pin_at_the_largest_value() {
    let mut local = LocalStats::default();
    local.total_tokens = usize::MAX - 1;
    local.record(Some(5), "a.json.gz", 1);
    assert_eq!(local.total_tokens, usize::MAX);
}

#[test]
fn merging_adds_totals_and_keeps_the_extreme_pointers() {
    let mut stats = Stats::default();
    let mut first = stats.local();
    first.record(Some(5), "a", 1);
    first.record(Some(2), "a", 2);
    stats.merge(first);
    assert_eq!(stats.total_tokens, 7);
    assert_eq!(stats.total_documents, 2);
    assert_eq!(stats.document_max_tokens, 5);
    assert_eq!(stats.document_min_tokens, 2);
    assert_eq!(lines(&stats.max_token_documents), vec![(1, 5)]);
    assert_eq!(lines(&stats.min_token_documents), vec![(2, 2)]);

    let mut second = stats.local();
    assert_eq!(second.document_max_tokens, 5);
    assert_eq!(second.document_min_tokens, 2);
    second.record(Some(9), "b", 1);
    second.record(Some(3), "b", 2);
    second.record(Some(9), "b", 3);
    stats.merge(second);
    assert_eq!(stats.total_tokens, 28);
    assert_eq!(stats.total_documents, 5);
    assert_eq!(stats.document_max_tokens, 9);
    assert_eq!(stats.document_min_tokens, 2);
    assert_eq!(lines(&stats.max_token_documents), vec![(1, 9), (3, 9)]);
    assert_eq!(lines(&stats.min_token_documents), vec![(2, 2)]);
}

#[test]
fn a_file_is_read_and_taken_in() {
    let record = |text: &str| DataInstance { text: Some(text.to_string()) };
    let mut stats = Stats::default();
    let first = vec![record("a b c"), DataInstance { text: None }, record("a"), record("x y z")];
    stats.collect_file(&first, "first.json.gz", None);
    assert_eq!(stats.total_tokens, 7);
    assert_eq!(stats.total_documents, 4);
    assert_eq!(stats.document_max_tokens, 3);
    assert_eq!(stats.document_min_tokens, 1);
    assert_eq!(lines(&stats.max_token_documents), vec![(1, 3), (4, 3)]);
    assert_eq!(lines(&stats.min_token_documents), vec![(3, 1)]);
    let second = vec![record("one two three four"), record(""), record("never read")];
    stats.collect_file(&second, "second.json.gz", Some(2));
    assert_eq!(stats.total_tokens, 11);
    assert_eq!(stats.total_documents, 6);
    assert_eq!(stats.document_max_tokens, 4);
    assert_eq!(stats.document_min_tokens, 0);
    assert_eq!(lines(&stats.max_token_documents), vec![(1, 4)]);
    assert_eq!(lines(&stats.min_token_documents), vec![(2, 0)]);
    assert_eq!(stats.max_token_documents[0].path, "second.json.gz");
    assert_eq!(stats.total_bytes, 0);
}

#[test]
fn one_record_is_noted_with_its_tokens_counted() {
    let mut local = LocalStats::default();
    local.record_instance(&DataInstance { text: Some("a b, c".to_string()) }, "f.json.gz", 1);
    local.record_instance(&DataInstance { text: None }, "f.json.gz", 2);
    local.record_instance(&DataInstance { text: Some("".to_string()) }, "f.json.gz", 3);
    assert_eq!(local.total_documents, 3);
    assert_eq!(local.total_tokens, 4);
    assert_eq!(local.document_max_tokens, 4);
    assert_eq!(local.document_min_tokens, 0);
    let max: Vec<usize> = local.max_token_documents.iter().map(|d| d.line).collect();
    let min: Vec<usize> = local.min_token_documents.iter().map(|d| d.line).collect();
    assert_eq!(max, vec![1]);
    assert_eq!(min, vec![1, 3]);
}
