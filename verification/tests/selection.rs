use wimbd::ngrams::topk::{same_tokens, TopKNgrams};

fn ngram(tokens: &[&str]) -> Vec<String> {
    tokens.iter().map(|t| t.to_string()).collect()
}

fn drained(selection: TopKNgrams) -> Vec<(String, u64)> {
    selection.drain().into_iter().map(|(tokens, count)| (tokens.join(" "), count)).collect()
}

#[test]
fn an_empty_selection() {
    let selection = TopKNgrams::new(3);
    assert_eq!(selection.len(), 0);
    assert_eq!(selection.min_count(), 0);
    assert!(selection.drain().is_empty());
}

#[test]
fn entries_are_taken_in_while_there_is_room() {
    let mut selection = TopKNgrams::new(3);
    selection.insert(ngram(&["a"]), 5);
    assert_eq!(selection.min_count(), 0);
    selection.insert(ngram(&["b"]), 9);
    assert_eq!(selection.min_count(), 0);
    selection.insert(ngram(&["c"]), 2);
    assert_eq!(selection.len(), 3);
    assert_eq!(selection.min_count(), 2);
    assert_eq!(
        drained(selection),
        vec![("b".to_string(), 9), ("a".to_string(), 5), ("c".to_string(), 2)]
    );
}

#[test]
fn a_full_selection_takes_only_larger_counts() {
    let mut selection = TopKNgrams::new(2);
    selection.insert(ngram(&["a"]), 5);
    selection.insert(ngram(&["b"]), 3);
    assert_eq!(selection.min_count(), 3);
    selection.insert(ngram(&["c"]), 3);
    assert_eq!(selection.min_count(), 3);
    selection.insert(ngram(&["d"]), 2);
    assert_eq!(selection.min_count(), 3);
    selection.insert(ngram(&["e"]), 4);
    assert_eq!(selection.min_count(), 4);
    selection.insert(ngram(&["f"]), 7);
    assert_eq!(selection.min_count(), 5);
    assert_eq!(selection.len(), 2);
    assert_eq!(drained(selection), vec![("f".to_string(), 7), ("a".to_string(), 5)]);
}

#[test]
fn equal_counts_keep_their_order_of_arrival() {
    let mut selection = TopKNgrams::new(3);
    selection.insert(ngram(&["a"]), 4);
    selection.insert(ngram(&["b"]), 4);
    selection.insert(ngram(&["c"]), 4);
    selection.insert(ngram(&["d"]), 4);
    assert_eq!(
        drained(selection),
        vec![("a".to_string(), 4), ("b".to_string(), 4), ("c".to_string(), 4)]
    );
}

#[test]
fn draining_keeps_the_highest_count_of_each_ngram() {
    let mut selection = TopKNgrams::new(5);
    selection.insert(ngram(&["a", "b"]), 2);
    selection.insert(ngram(&["c"]), 3);
    selection.insert(ngram(&["a", "b"]), 4);
    selection.insert(ngram(&["c"]), 1);
    selection.insert(ngram(&["ab"]), 4);
    assert_eq!(
        drained(selection),
        vec![("a b".to_string(), 4), ("ab".to_string(), 4), ("c".to_string(), 3)]
    );
}

#[test]
fn a_selection_without_room_takes_nothing() {
    let mut selection = TopKNgrams::new(0);
    selection.insert(ngram(&["a"]), 4);
    assert_eq!(selection.len(), 0);
    assert_eq!(selection.min_count(), 0);
    assert!(selection.drain().is_empty());
}

#[test]
fn tokens_are_compared_as_a_whole() {
    assert!(same_tokens(&ngram(&["a", "b"]), &ngram(&["a", "b"])));
    assert!(!same_tokens(&ngram(&["a", "b"]), &ngram(&["b", "a"])));
    assert!(!same_tokens(&ngram(&["a", "b"]), &ngram(&["a"])));
    assert!(!same_tokens(&ngram(&["ab"]), &ngram(&["a", "b"])));
    assert!(same_tokens(&ngram(&[]), &ngram(&[])));
}
