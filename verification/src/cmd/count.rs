//! The exact-count task: how often each of the given token sequences
//! occurs in the records of the corpus.

use vstd::prelude::*;
use crate::cmd::util::{ConfigError, DataInstance, Record, limited, limited_len, pinned};
use crate::ngrams::counter::NgramKey;
use crate::ngrams::topk::same_tokens;
use crate::tokens::{tokenize, tokens_of};

verus! {

/// A token sequence that is searched for, with the number of times it was
/// found.
#[derive(Debug, PartialEq, Eq)]
pub struct SearchCount {
    pub tokens: Vec<String>,
    pub count: usize,
}

/// The settings of the exact-count task.
#[derive(Clone, Copy, Debug)]
pub struct Opt {
    /// At most this many records are read of each file.
    pub limit: Option<usize>,
    /// At most this many files are read.
    pub file_limit: Option<usize>,
}

/// The `term` ends at position `end` of `tokens`.
pub open spec fn ends_at(tokens: Seq<Seq<char>>, term: NgramKey, end: int) -> bool {
    term.len() <= end <= tokens.len() && tokens.subrange(end - term.len(), end) == term
}

/// The number of positions from `from` to `upto`, both included, at which
/// `term` ends in `tokens`.
pub open spec fn occurrences_upto(tokens: Seq<Seq<char>>, term: NgramKey, from: int, upto: int) -> nat
    decreases upto - from + 1,
{
    if upto < from {
        0
    } else {
        occurrences_upto(tokens, term, from, upto - 1) + if ends_at(tokens, term, upto) {
            1nat
        } else {
            0nat
        }
    }
}

/// The number of times `term` occurs in `tokens`, not counting the
/// occurrences that end before position `from`.
pub open spec fn occurrences(tokens: Seq<Seq<char>>, term: NgramKey, from: int) -> nat {
    occurrences_upto(tokens, term, from, tokens.len() as int)
}

/// The number of times `term` occurs in the records.
pub open spec fn file_occurrences(records: Seq<Record>, term: NgramKey, from: int) -> nat
    decreases records.len(),
{
    if records.len() == 0 {
        0
    } else {
        file_occurrences(records.drop_last(), term, from) + match records.last() {
            Some(text) => occurrences(tokens_of(text), term, from),
            None => 0,
        }
    }
}

/// The number of times `term` occurs in the files, with at most `limit`
/// records read of each.
pub open spec fn corpus_occurrences(
    files: Seq<Seq<Record>>,
    term: NgramKey,
    from: int,
    limit: Option<usize>,
) -> nat
    decreases files.len(),
{
    if files.len() == 0 {
        0
    } else {
        corpus_occurrences(files.drop_last(), term, from, limit) + file_occurrences(
            limited(files.last(), limit),
            term,
            from,
        )
    }
}

/// The counts `after` are the counts `before` with `found(s)` more
/// occurrences of each term `s`, pinned at the largest value.
pub open spec fn counted(
    before: Seq<SearchCount>,
    after: Seq<SearchCount>,
    found: spec_fn(int) -> nat,
) -> bool {
    &&& after.len() == before.len()
    &&& forall|s: int|
        0 <= s < before.len() ==> (#[trigger] after[s]).tokens.deep_view()
            == before[s].tokens.deep_view() && after[s].count == pinned(before[s].count + found(s))
}

/// Whether `term` ends at position `end` of `tokens`.
pub fn term_ends_at(tokens: &Vec<String>, term: &Vec<String>, end: usize) -> (b: bool)
    ensures
        b == ends_at(tokens.deep_view(), term.deep_view(), end as int),
{
    let len = term.len();
    if len > end || end > tokens.len() {
        return false;
    }
    let start = end - len;
    let ghost slice = tokens.deep_view().subrange(start as int, end as int);
    let mut i: usize = 0;
    while i < len
        invariant
            i <= len,
            len == term@.len(),
            start + len == end,
            end <= tokens@.len(),
            slice == tokens.deep_view().subrange(start as int, end as int),
            forall|j: int| 0 <= j < i ==> slice[j] == term.deep_view()[j],
        decreases len - i,
    {
        if tokens[start + i] != term[i] {
            assert(slice[i as int] != term.deep_view()[i as int]);
            return false;
        }
        i += 1;
    }
    assert(slice =~= term.deep_view());
    true
}

/// Adds to the count of each term the number of its occurrences in
/// `tokens` that end at position `min_search_length` or later.
pub fn count_occurences(min_search_length: usize, tokens: &Vec<String>, counts: &mut Vec<SearchCount>)
    ensures
        counted(
            old(counts)@,
            final(counts)@,
            |s: int|
                occurrences(
                    tokens.deep_view(),
                    old(counts)@[s].tokens.deep_view(),
                    min_search_length as int,
                ),
        ),
{
    let ghost all = tokens.deep_view();
    let ghost before = counts@;
    let ghost from = min_search_length as int;
    let mut index: usize = min_search_length;
    if index > tokens.len() {
        return;
    }
    loop
        invariant_except_break
            min_search_length <= index <= tokens@.len(),
            forall|s: int|
                0 <= s < before.len() ==> (#[trigger] counts@[s]).tokens.deep_view()
                    == before[s].tokens.deep_view() && counts@[s].count == pinned(
                    before[s].count + occurrences_upto(
                        all,
                        before[s].tokens.deep_view(),
                        from,
                        index - 1,
                    ),
                ),
        invariant
            all == tokens.deep_view(),
            before == old(counts)@,
            from == min_search_length as int,
            counts@.len() == before.len(),
        ensures
            counted(
                before,
                counts@,
                |s: int| occurrences(all, before[s].tokens.deep_view(), from),
            ),
        decreases tokens@.len() - index,
    {
        let mut s: usize = 0;
        while s < counts.len()
            invariant
                s <= counts@.len(),
                min_search_length <= index <= tokens@.len(),
                all == tokens.deep_view(),
                before == old(counts)@,
                from == min_search_length as int,
                counts@.len() == before.len(),
                forall|t: int|
                    0 <= t < before.len() ==> (#[trigger] counts@[t]).tokens.deep_view()
                        == before[t].tokens.deep_view() && counts@[t].count == pinned(
                        before[t].count + occurrences_upto(
                            all,
                            before[t].tokens.deep_view(),
                            from,
                            if t < s {
                                index as int
                            } else {
                                index - 1
                            },
                        ),
                    ),
            decreases counts@.len() - s,
        {
            let ghost here = counts@;
            if term_ends_at(tokens, &counts[s].tokens, index) {
                let next = counts[s].count.saturating_add(1);
                counts[s].count = next;
            }
            assert forall|t: int| 0 <= t < before.len() implies (#[trigger] counts@[t]).tokens.deep_view()
                == before[t].tokens.deep_view() && counts@[t].count == pinned(
                before[t].count + occurrences_upto(
                    all,
                    before[t].tokens.deep_view(),
                    from,
                    if t < s + 1 {
                        index as int
                    } else {
                        index - 1
                    },
                ),
            ) by {
                assert(here[t].tokens.deep_view() == before[t].tokens.deep_view());
                if t != s {
                    assert(counts@[t] == here[t]);
                }
            }
            s += 1;
        }
        if index == tokens.len() {
            break;
        }
        index += 1;
    }
}

/// Occurrences cannot end before the term's own length, so leaving out
/// the positions before a bound that does not exceed it leaves out
/// nothing.
pub proof fn lemma_occurrences_from(tokens: Seq<Seq<char>>, term: NgramKey, from: int, upto: int)
    requires
        0 <= from <= term.len(),
    ensures
        occurrences_upto(tokens, term, from, upto) == occurrences_upto(tokens, term, 0, upto),
    decreases upto + 1,
{
    if upto >= 0 {
        lemma_occurrences_from(tokens, term, from, upto - 1);
    }
}

/// Counting twice adds up, pinned at the largest value.
pub proof fn lemma_counted_twice(
    before: Seq<SearchCount>,
    between: Seq<SearchCount>,
    after: Seq<SearchCount>,
    first: spec_fn(int) -> nat,
    second: spec_fn(int) -> nat,
    both: spec_fn(int) -> nat,
)
    requires
        counted(before, between, first),
        counted(between, after, second),
        forall|s: int| 0 <= s < before.len() ==> #[trigger] both(s) == first(s) + second(s),
    ensures
        counted(before, after, both),
{
    assert forall|s: int| 0 <= s < before.len() implies (#[trigger] after[s]).tokens.deep_view()
        == before[s].tokens.deep_view() && after[s].count == pinned(before[s].count + both(s)) by {
        assert(between[s].count == pinned(before[s].count + first(s)));
        assert(both(s) == first(s) + second(s));
    }
}

/// The number of times `term` occurs in one record.
pub open spec fn record_occurrences(record: Record, term: NgramKey, from: int) -> nat {
    match record {
        Some(text) => occurrences(tokens_of(text), term, from),
        None => 0,
    }
}

/// Adds to the count of each term the number of its occurrences in one
/// record; a record without text changes nothing.
pub fn count_record(min_search_length: usize, record: &DataInstance, counts: &mut Vec<SearchCount>)
    ensures
        counted(
            old(counts)@,
            final(counts)@,
            |s: int|
                record_occurrences(
                    record.deep_view(),
                    old(counts)@[s].tokens.deep_view(),
                    min_search_length as int,
                ),
        ),
{
    match &record.text {
        Some(text) => {
            let tokens = tokenize(text.as_str());
            count_occurences(min_search_length, &tokens, counts);
        },
        None => {},
    }
}

/// Adds to the count of each term the number of its occurrences in the
/// first `limit` records of a file.
pub fn count_file(
    min_search_length: usize,
    records: &Vec<DataInstance>,
    counts: &mut Vec<SearchCount>,
    limit: Option<usize>,
)
    ensures
        counted(
            old(counts)@,
            final(counts)@,
            |s: int|
                file_occurrences(
                    limited(records.deep_view(), limit),
                    old(counts)@[s].tokens.deep_view(),
                    min_search_length as int,
                ),
        ),
{
    let take = limited_len(records.len(), limit);
    let ghost all = limited(records.deep_view(), limit);
    let ghost before = counts@;
    let ghost from = min_search_length as int;
    let mut r: usize = 0;
    proof {
        assert(all.take(0) =~= Seq::<Record>::empty());
    }
    while r < take
        invariant
            r <= take,
            take <= records@.len(),
            all == limited(records.deep_view(), limit),
            all.len() == take,
            before == old(counts)@,
            from == min_search_length as int,
            counted(
                before,
                counts@,
                |s: int| file_occurrences(all.take(r as int), before[s].tokens.deep_view(), from),
            ),
        decreases take - r,
    {
        let ghost here = counts@;
        proof {
            assert(all.take(r + 1).drop_last() =~= all.take(r as int));
            assert(all.take(r + 1).last() == records@[r as int].deep_view());
        }
        count_record(min_search_length, &records[r], counts);
        proof {
            lemma_counted_twice(
                before,
                here,
                counts@,
                |s: int| file_occurrences(all.take(r as int), before[s].tokens.deep_view(), from),
                |s: int| record_occurrences(all[r as int], here[s].tokens.deep_view(), from),
                |s: int| file_occurrences(all.take(r + 1), before[s].tokens.deep_view(), from),
            );
        }
        r += 1;
    }
    assert(all.take(take as int) =~= all);
}

/// Adds to the count of each term the number of its occurrences in the
/// files, with at most `limit` records read of each.
pub fn count_files(
    min_search_length: usize,
    files: &Vec<Vec<DataInstance>>,
    counts: &mut Vec<SearchCount>,
    limit: Option<usize>,
    file_limit: Option<usize>,
)
    ensures
        counted(
            old(counts)@,
            final(counts)@,
            |s: int|
                corpus_occurrences(
                    limited(files.deep_view(), file_limit),
                    old(counts)@[s].tokens.deep_view(),
                    min_search_length as int,
                    limit,
                ),
        ),
{
    let take = limited_len(files.len(), file_limit);
    let ghost all = limited(files.deep_view(), file_limit);
    let ghost before = counts@;
    let ghost from = min_search_length as int;
    let mut f: usize = 0;
    proof {
        assert(all.take(0) =~= Seq::<Seq<Record>>::empty());
    }
    while f < take
        invariant
            f <= take,
            take <= files@.len(),
            all == limited(files.deep_view(), file_limit),
            all.len() == take,
            before == old(counts)@,
            from == min_search_length as int,
            counted(
                before,
                counts@,
                |s: int| corpus_occurrences(all.take(f as int), before[s].tokens.deep_view(), from, limit),
            ),
        decreases take - f,
    {
        let ghost here = counts@;
        proof {
            assert(all.take(f + 1).drop_last() =~= all.take(f as int));
            assert(all.take(f + 1).last() == files@[f as int].deep_view());
        }
        count_file(min_search_length, &files[f], counts, limit);
        proof {
            lemma_counted_twice(
                before,
                here,
                counts@,
                |s: int| corpus_occurrences(all.take(f as int), before[s].tokens.deep_view(), from, limit),
                |s: int|
                    file_occurrences(
                        limited(files@[f as int].deep_view(), limit),
                        here[s].tokens.deep_view(),
                        from,
                    ),
                |s: int| corpus_occurrences(all.take(f + 1), before[s].tokens.deep_view(), from, limit),
            );
        }
        f += 1;
    }
    assert(all.take(take as int) =~= all);
}

/// The token sequences searched for: those of the search strings, each
/// once, in the order of their first appearance.
pub open spec fn terms_of(searches: Seq<Seq<char>>) -> Seq<NgramKey>
    decreases searches.len(),
{
    if searches.len() == 0 {
        Seq::empty()
    } else {
        let front = terms_of(searches.drop_last());
        let term = tokens_of(searches.last());
        if front.contains(term) {
            front
        } else {
            front.push(term)
        }
    }
}

/// The length of the shortest of the terms; the largest `usize` if there
/// is none.
pub open spec fn shortest(searches: Seq<Seq<char>>) -> int
    decreases searches.len(),
{
    if searches.len() == 0 {
        usize::MAX as int
    } else {
        let rest = shortest(searches.drop_last());
        let len = tokens_of(searches.last()).len() as int;
        if len < rest {
            len
        } else {
            rest
        }
    }
}

/// The reason, if there is one, for which the exact-count task does not
/// start.
pub open spec fn invalid(paths: nat, searches: nat, opt: Opt) -> Option<ConfigError> {
    if searches == 0 {
        Some(ConfigError::NoSearchTerms)
    } else if opt.file_limit == Some(0usize) {
        Some(ConfigError::ZeroFileLimit)
    } else if paths == 0 {
        Some(ConfigError::NoPaths)
    } else {
        None
    }
}

/// Checks the settings against the numbers of inputs and of search
/// strings.
pub fn validate(paths: usize, searches: usize, opt: &Opt) -> (r: Result<(), ConfigError>)
    ensures
        match r {
            Ok(_) => invalid(paths as nat, searches as nat, *opt) is None,
            Err(e) => invalid(paths as nat, searches as nat, *opt) == Some(e),
        },
{
    if searches == 0 {
        return Err(ConfigError::NoSearchTerms);
    }
    if let Some(file_limit) = opt.file_limit {
        if file_limit == 0 {
            return Err(ConfigError::ZeroFileLimit);
        }
    }
    if paths == 0 {
        return Err(ConfigError::NoPaths);
    }
    Ok(())
}

/// The terms with zero counts, and the length of the shortest term.
pub fn search_terms(searches: &Vec<String>) -> (out: (Vec<SearchCount>, usize))
    ensures
        out.0@.len() == terms_of(searches.deep_view()).len(),
        forall|s: int|
            0 <= s < out.0@.len() ==> (#[trigger] out.0@[s]).tokens.deep_view() == terms_of(
                searches.deep_view(),
            )[s] && out.0@[s].count == 0,
        out.1 == shortest(searches.deep_view()),
{
    let ghost all = searches.deep_view();
    let mut counts: Vec<SearchCount> = Vec::new();
    let mut min_len: usize = usize::MAX;
    let mut i: usize = 0;
    proof {
        assert(all.take(0) =~= Seq::<Seq<char>>::empty());
    }
    while i < searches.len()
        invariant
            i <= searches@.len(),
            all == searches.deep_view(),
            counts@.len() == terms_of(all.take(i as int)).len(),
            forall|s: int|
                0 <= s < counts@.len() ==> (#[trigger] counts@[s]).tokens.deep_view() == terms_of(
                    all.take(i as int),
                )[s] && counts@[s].count == 0,
            min_len == shortest(all.take(i as int)),
        decreases searches@.len() - i,
    {
        let ghost front = terms_of(all.take(i as int));
        proof {
            assert(all.take(i + 1).drop_last() =~= all.take(i as int));
            assert(all.take(i + 1).last() == searches@[i as int]@);
        }
        let tokens = tokenize(searches[i].as_str());
        if tokens.len() < min_len {
            min_len = tokens.len();
        }
        let mut seen = false;
        let mut j: usize = 0;
        while j < counts.len() && !seen
            invariant
                j <= counts@.len(),
                counts@.len() == front.len(),
                forall|s: int| 0 <= s < counts@.len() ==> (#[trigger] counts@[s]).tokens.deep_view() == front[s],
                seen ==> front.contains(tokens.deep_view()),
                !seen ==> forall|s: int| 0 <= s < j ==> front[s] != tokens.deep_view(),
            decreases counts@.len() - j + if seen { 0int } else { 1int },
        {
            if same_tokens(&counts[j].tokens, &tokens) {
                seen = true;
                assert(front[j as int] == tokens.deep_view());
            }
            j += 1;
        }
        if !seen {
            counts.push(SearchCount { tokens, count: 0 });
        }
        i += 1;
    }
    assert(all.take(searches@.len() as int) =~= all);
    (counts, min_len)
}

/// The exact-count task: checks the settings and counts the occurrences of
/// each search term in the files.
pub fn count(files: &Vec<Vec<DataInstance>>, searches: &Vec<String>, opt: &Opt) -> (r: Result<
    Vec<SearchCount>,
    ConfigError,
>)
    ensures
        r is Ok <==> invalid(files@.len(), searches@.len(), *opt) is None,
        r matches Err(e) ==> invalid(files@.len(), searches@.len(), *opt) == Some(e),
        r matches Ok(counts) ==> {
            &&& counts@.len() == terms_of(searches.deep_view()).len()
            &&& forall|s: int|
                0 <= s < counts@.len() ==> (#[trigger] counts@[s]).tokens.deep_view() == terms_of(
                    searches.deep_view(),
                )[s] && counts@[s].count == pinned(
                    corpus_occurrences(
                        limited(files.deep_view(), opt.file_limit),
                        terms_of(searches.deep_view())[s],
                        0,
                        opt.limit,
                    ) as int,
                )
        },
{
    match validate(files.len(), searches.len(), opt) {
        Err(e) => {
            return Err(e);
        },
        Ok(_) => {},
    }
    let (mut counts, min_len) = search_terms(searches);
    count_files(min_len, files, &mut counts, opt.limit, opt.file_limit);
    proof {
        let terms = terms_of(searches.deep_view());
        let read = limited(files.deep_view(), opt.file_limit);
        assert forall|s: int| 0 <= s < counts@.len() implies corpus_occurrences(
            read,
            terms[s],
            min_len as int,
            opt.limit,
        ) == corpus_occurrences(read, terms[s], 0, opt.limit) by {
            lemma_shortest(searches.deep_view(), s);
            lemma_corpus_occurrences_from(read, terms[s], min_len as int, opt.limit);
        }
    }
    Ok(counts)
}

/// No term is shorter than the shortest.
pub proof fn lemma_shortest(searches: Seq<Seq<char>>, s: int)
    requires
        0 <= s < terms_of(searches).len(),
    ensures
        0 <= shortest(searches) <= terms_of(searches)[s].len(),
    decreases searches.len(),
{
    if searches.len() > 0 {
        let front = searches.drop_last();
        lemma_shortest_is_a_length(front);
        if s < terms_of(front).len() {
            lemma_shortest(front, s);
        }
    }
}

/// The length of the shortest term is a length.
pub proof fn lemma_shortest_is_a_length(searches: Seq<Seq<char>>)
    ensures
        0 <= shortest(searches),
    decreases searches.len(),
{
    if searches.len() > 0 {
        lemma_shortest_is_a_length(searches.drop_last());
    }
}

/// Over a file, leaving out the positions before a bound that does not
/// exceed the term's length leaves out nothing.
pub proof fn lemma_file_occurrences_from(records: Seq<Record>, term: NgramKey, from: int)
    requires
        0 <= from <= term.len(),
    ensures
        file_occurrences(records, term, from) == file_occurrences(records, term, 0),
    decreases records.len(),
{
    if records.len() > 0 {
        lemma_file_occurrences_from(records.drop_last(), term, from);
        if let Some(text) = records.last() {
            lemma_occurrences_from(tokens_of(text), term, from, tokens_of(text).len() as int);
        }
    }
}

/// Over a corpus, leaving out the positions before a bound that does not
/// exceed the term's length leaves out nothing.
pub proof fn lemma_corpus_occurrences_from(
    files: Seq<Seq<Record>>,
    term: NgramKey,
    from: int,
    limit: Option<usize>,
)
    requires
        0 <= from <= term.len(),
    ensures
        corpus_occurrences(files, term, from, limit) == corpus_occurrences(files, term, 0, limit),
    decreases files.len(),
{
    if files.len() > 0 {
        lemma_corpus_occurrences_from(files.drop_last(), term, from, limit);
        lemma_file_occurrences_from(limited(files.last(), limit), term, from);
    }
}

} // verus!
