//! The pattern-search task: how often each of the given regular
//! expressions matches in the texts of the corpus, and where.

use vstd::prelude::*;
use regex::Regex;
use crate::cmd::util::{ConfigError, DataInstance, Record, limited, limited_len, pinned};
use crate::text::same_str;

verus! {

/// Declares `regex::Regex`, a compiled expression, so that it can be
/// carried from where it is made to where it is used. Trusted: nothing is
/// stated of what it holds.
#[verifier::external_type_specification]
#[verifier::external_body]
pub struct ExRegex(regex::Regex);

/// Declares `regex::Error`, the error of `Regex::new`, so that it can be
/// handed on. Trusted: nothing is stated of what it holds.
#[verifier::external_type_specification]
#[verifier::external_body]
pub struct ExRegexError(regex::Error);

/// The pattern that a compiled expression was made from, as
/// `Regex::as_str` returns it.
pub uninterp spec fn regex_source(re: Regex) -> Seq<char>;

/// Whether `Regex::new` accepts `pattern`.
pub uninterp spec fn valid_pattern(pattern: Seq<char>) -> bool;

/// The successive matches without overlap that the expression which
/// `Regex::new` makes of `pattern` finds in `text`, each as the byte
/// offsets of its start and its end.
pub uninterp spec fn regex_spans(pattern: Seq<char>, text: Seq<char>) -> Seq<(usize, usize)>;

/// The successive matches without overlap that `Regex::find_iter` yields
/// for the compiled expression `re` in `text`, each as the byte offsets
/// of its start and its end.
pub uninterp spec fn regex_matches(re: Regex, text: Seq<char>) -> Seq<(usize, usize)>;

/// The expression `re` is the one that `Regex::new` makes of `pattern`:
/// it keeps that pattern and finds what the pattern finds.
pub open spec fn compiled_from(re: Regex, pattern: Seq<char>) -> bool {
    &&& regex_source(re) == pattern
    &&& forall|text: Seq<char>| #[trigger] regex_matches(re, text) == regex_spans(pattern, text)
}

/// Calls `Regex::new`. Trusted: states that whether the pattern is
/// accepted depends on the pattern alone, that the compiled expression
/// keeps the pattern it was made from, and that what it finds in a text
/// depends on the pattern and the text alone, since it is made with the
/// default options.
#[verifier::external_body]
fn compile(pattern: &str) -> (r: Result<Regex, regex::Error>)
    ensures
        r is Ok <==> valid_pattern(pattern@),
        r matches Ok(re) ==> regex_source(re) == pattern@,
        r matches Ok(re) ==> forall|text: Seq<char>| #[trigger]
            regex_matches(re, text) == regex_spans(pattern@, text),
{
    Regex::new(pattern)
}

/// Calls `Regex::find_iter`, and `Match::start` and `Match::end` on each
/// match. Trusted: states that the matches are a function of the compiled
/// expression and of the text.
#[verifier::external_body]
fn find_spans(re: &Regex, text: &str) -> (spans: Vec<(usize, usize)>)
    ensures
        spans@ == regex_matches(*re, text@),
{
    re.find_iter(text).map(|m| (m.start(), m.end())).collect()
}

/// Calls `Regex::as_str`. Trusted: states that the string is the pattern
/// that the expression was made from, as the crate documents.
#[verifier::external_body]
fn pattern_of(re: &Regex) -> (pattern: String)
    ensures
        pattern@ == regex_source(*re),
{
    re.as_str().to_string()
}

/// Calls `ToString::to_string` on the error of `Regex::new`. Trusted:
/// nothing is stated of the text.
#[verifier::external_body]
fn error_text(e: &regex::Error) -> String {
    e.to_string()
}

/// Where a match stands: the line of its record in the file, from one, and
/// the byte offsets of its start and its end in the text.
#[derive(Clone, Copy, Debug, PartialEq, Eq, Structural)]
pub struct MatchLocation {
    pub line: usize,
    pub start_col: usize,
    pub end_col: usize,
}

/// The matches of one pattern in one file.
#[derive(Debug, PartialEq, Eq)]
pub struct FileMatches {
    /// The place of the file among the files read.
    pub file: usize,
    /// The matches, in the order of the records and of the text.
    pub locations: Vec<MatchLocation>,
}

impl DeepView for FileMatches {
    type V = (usize, Seq<MatchLocation>);

    open spec fn deep_view(&self) -> (usize, Seq<MatchLocation>) {
        (self.file, self.locations@)
    }
}

/// What was found of one pattern.
#[derive(Debug, PartialEq, Eq)]
pub struct PatternMatches {
    /// The pattern.
    pub pattern: String,
    /// The number of its matches.
    pub count: usize,
    /// The matches in each file that has any, if locations were asked for.
    pub matches: Option<Vec<FileMatches>>,
}

/// Why the pattern-search task did not start.
#[derive(Debug, PartialEq, Eq)]
pub enum SearchError {
    /// The settings are wrong.
    Config(ConfigError),
    /// The pattern at this place is not accepted; with the reason.
    BadPattern(usize, String),
}

/// The settings of the pattern-search task.
#[derive(Clone, Copy, Debug)]
pub struct Opt {
    /// Whether the place of each match is reported.
    pub with_locations: bool,
    /// At most this many records are read of each file.
    pub limit: Option<usize>,
    /// At most this many files are read.
    pub file_limit: Option<usize>,
}

/// What finds the matches in a text.
pub type Finder = spec_fn(Seq<char>) -> Seq<(usize, usize)>;

/// What the pattern `pattern` finds.
pub open spec fn by_pattern(pattern: Seq<char>) -> Finder {
    |text: Seq<char>| regex_spans(pattern, text)
}

/// What the compiled expression `re` finds.
pub open spec fn by_expression(re: Regex) -> Finder {
    |text: Seq<char>| regex_matches(re, text)
}

/// The places of the matches `spans` in the record at `line`.
pub open spec fn located(spans: Seq<(usize, usize)>, line: usize) -> Seq<MatchLocation> {
    Seq::new(
        spans.len(),
        |i: int| MatchLocation { line, start_col: spans[i].0, end_col: spans[i].1 },
    )
}

/// The places of what `finder` finds in the records of a file, in order.
pub open spec fn file_locations(finder: Finder, records: Seq<Record>) -> Seq<MatchLocation>
    decreases records.len(),
{
    if records.len() == 0 {
        Seq::empty()
    } else {
        file_locations(finder, records.drop_last()) + match records.last() {
            Some(text) => located(finder(text), records.len() as usize),
            None => Seq::empty(),
        }
    }
}

/// The number of matches that `finder` finds in the files.
pub open spec fn total_matches(finder: Finder, files: Seq<Seq<Record>>, limit: Option<usize>) -> nat
    decreases files.len(),
{
    if files.len() == 0 {
        0
    } else {
        total_matches(finder, files.drop_last(), limit) + file_locations(
            finder,
            limited(files.last(), limit),
        ).len()
    }
}

/// The matches that `finder` finds in each of the files that has any, in
/// the order of the files.
pub open spec fn matches_by_file(finder: Finder, files: Seq<Seq<Record>>, limit: Option<usize>) -> Seq<
    (usize, Seq<MatchLocation>),
>
    decreases files.len(),
{
    if files.len() == 0 {
        Seq::empty()
    } else {
        let front = matches_by_file(finder, files.drop_last(), limit);
        let here = file_locations(finder, limited(files.last(), limit));
        if here.len() > 0 {
            front.push(((files.len() - 1) as usize, here))
        } else {
            front
        }
    }
}

/// The patterns, each once, in the order of their first appearance.
pub open spec fn distinct_patterns(patterns: Seq<Seq<char>>) -> Seq<Seq<char>>
    decreases patterns.len(),
{
    if patterns.len() == 0 {
        Seq::empty()
    } else {
        let front = distinct_patterns(patterns.drop_last());
        if front.contains(patterns.last()) {
            front
        } else {
            front.push(patterns.last())
        }
    }
}

/// The place of the first pattern that is not accepted, or the number of
/// patterns if all are.
pub open spec fn first_invalid(patterns: Seq<Seq<char>>) -> int
    decreases patterns.len(),
{
    if patterns.len() == 0 {
        0
    } else {
        let before = first_invalid(patterns.drop_last());
        if before < patterns.len() - 1 {
            before
        } else if valid_pattern(patterns.last()) {
            patterns.len() as int
        } else {
            patterns.len() - 1
        }
    }
}

/// The reason, if there is one, for which the settings are wrong.
pub open spec fn invalid(paths: nat, patterns: nat, opt: Opt) -> Option<ConfigError> {
    if patterns == 0 {
        Some(ConfigError::NoPatterns)
    } else if opt.file_limit == Some(0usize) {
        Some(ConfigError::ZeroFileLimit)
    } else if paths == 0 {
        Some(ConfigError::NoPaths)
    } else {
        None
    }
}

/// What is found by `finder`, which finds the matches of the pattern
/// `source`, in the files.
pub open spec fn found_by(
    finder: Finder,
    source: Seq<char>,
    files: Seq<Seq<Record>>,
    opt: Opt,
    found: PatternMatches,
) -> bool {
    let read = limited(files, opt.file_limit);
    &&& found.pattern@ == source
    &&& found.count == pinned(total_matches(finder, read, opt.limit) as int)
    &&& found.matches.deep_view() == if opt.with_locations {
        Some(matches_by_file(finder, read, opt.limit))
    } else {
        None
    }
}

/// What is found of the pattern `pattern`.
pub open spec fn found_of(pattern: Seq<char>, files: Seq<Seq<Record>>, opt: Opt, found: PatternMatches) -> bool {
    found_by(by_pattern(pattern), pattern, files, opt, found)
}

/// Two finders that find the same in every text find the same in a file.
pub proof fn lemma_file_locations_agree(one: Finder, other: Finder, records: Seq<Record>)
    requires
        forall|text: Seq<char>| #[trigger] one(text) == other(text),
    ensures
        file_locations(one, records) == file_locations(other, records),
    decreases records.len(),
{
    if records.len() > 0 {
        lemma_file_locations_agree(one, other, records.drop_last());
    }
}

/// Two finders that find the same in every text find the same in the
/// files.
pub proof fn lemma_files_agree(one: Finder, other: Finder, files: Seq<Seq<Record>>, limit: Option<usize>)
    requires
        forall|text: Seq<char>| #[trigger] one(text) == other(text),
    ensures
        total_matches(one, files, limit) == total_matches(other, files, limit),
        matches_by_file(one, files, limit) == matches_by_file(other, files, limit),
    decreases files.len(),
{
    if files.len() > 0 {
        lemma_files_agree(one, other, files.drop_last(), limit);
        lemma_file_locations_agree(one, other, limited(files.last(), limit));
    }
}

/// Checks the settings against the numbers of inputs and of patterns.
pub fn validate(paths: usize, patterns: usize, opt: &Opt) -> (r: Result<(), ConfigError>)
    ensures
        match r {
            Ok(_) => invalid(paths as nat, patterns as nat, *opt) is None,
            Err(e) => invalid(paths as nat, patterns as nat, *opt) == Some(e),
        },
{
    if patterns == 0 {
        return Err(ConfigError::NoPatterns);
    }
    if let Some(file_limit) = opt.file_limit {
        if file_limit == 0 {
            return Err(ConfigError::ZeroFileLimit);
        }
    }
    if paths == 0 {
        return Err(ConfigError::NoPaths);
    }
    Ok(())
}

/// Compiles the patterns in their order, and returns the expressions of
/// the distinct ones, or the place of the first pattern that is not
/// accepted, with the reason.
pub fn compile_patterns(patterns: &Vec<String>) -> (r: Result<Vec<Regex>, (usize, String)>)
    ensures
        r is Ok <==> first_invalid(patterns.deep_view()) == patterns@.len(),
        r matches Ok(compiled) ==> {
            &&& compiled@.len() == distinct_patterns(patterns.deep_view()).len()
            &&& forall|s: int|
                0 <= s < compiled@.len() ==> compiled_from(
                    #[trigger] compiled@[s],
                    distinct_patterns(patterns.deep_view())[s],
                )
        },
        r matches Err(bad) ==> bad.0 < patterns@.len() && first_invalid(patterns.deep_view()) == bad.0,
{
    let ghost all = patterns.deep_view();
    let mut compiled: Vec<Regex> = Vec::new();
    let mut i: usize = 0;
    proof {
        assert(all.take(0) =~= Seq::<Seq<char>>::empty());
    }
    while i < patterns.len()
        invariant
            i <= patterns@.len(),
            all == patterns.deep_view(),
            first_invalid(all.take(i as int)) == i,
            compiled@.len() == distinct_patterns(all.take(i as int)).len(),
            forall|s: int|
                0 <= s < compiled@.len() ==> compiled_from(
                    #[trigger] compiled@[s],
                    distinct_patterns(all.take(i as int))[s],
                ),
        decreases patterns@.len() - i,
    {
        let ghost front = distinct_patterns(all.take(i as int));
        proof {
            assert(all.take(i + 1).drop_last() =~= all.take(i as int));
            assert(all.take(i + 1).last() == patterns@[i as int]@);
        }
        match compile(patterns[i].as_str()) {
            Ok(re) => {
                let mut seen = false;
                let mut j: usize = 0;
                while j < compiled.len() && !seen
                    invariant
                        j <= compiled@.len(),
                        i < patterns@.len(),
                        compiled@.len() == front.len(),
                        forall|s: int| 0 <= s < compiled@.len() ==> regex_source(#[trigger] compiled@[s]) == front[s],
                        seen ==> front.contains(patterns@[i as int]@),
                        !seen ==> forall|s: int| 0 <= s < j ==> front[s] != patterns@[i as int]@,
                    decreases compiled@.len() - j + if seen { 0int } else { 1int },
                {
                    let held = pattern_of(&compiled[j]);
                    if same_str(held.as_str(), patterns[i].as_str()) {
                        seen = true;
                        assert(front[j as int] == patterns@[i as int]@);
                    }
                    j += 1;
                }
                if !seen {
                    compiled.push(re);
                }
            },
            Err(e) => {
                proof {
                    assert(!valid_pattern(all.take(i + 1).last()));
                    assert(first_invalid(all.take(i + 1)) == i);
                    lemma_first_invalid_stays(all, i + 1);
                }
                return Err((i, error_text(&e)));
            },
        }
        i += 1;
    }
    assert(all.take(patterns@.len() as int) =~= all);
    Ok(compiled)
}

impl PatternMatches {
    /// Nothing found yet of the pattern that `re` was made from.
    pub fn new(re: &Regex, with_locations: bool) -> (found: PatternMatches)
        ensures
            found.pattern@ == regex_source(*re),
            found.count == 0,
            found.matches.deep_view() == if with_locations {
                Some(Seq::<(usize, Seq<MatchLocation>)>::empty())
            } else {
                None
            },
    {
        let matches: Option<Vec<FileMatches>> = if with_locations {
            let empty: Vec<FileMatches> = Vec::new();
            assert(empty.deep_view() =~= Seq::<(usize, Seq<MatchLocation>)>::empty());
            Some(empty)
        } else {
            None
        };
        PatternMatches { pattern: pattern_of(re), count: 0, matches }
    }

    /// Takes in what was found in the file at place `file`: the number of
    /// matches is added, and their places are kept if places are kept at
    /// all and there is any.
    pub fn add_file(self, file: usize, count: usize, locations: Vec<MatchLocation>) -> (found:
        PatternMatches)
        ensures
            found.pattern@ == self.pattern@,
            found.count == pinned(self.count + count),
            found.matches.deep_view() == match self.matches.deep_view() {
                Some(before) => Some(
                    if locations@.len() > 0 {
                        before.push((file, locations@))
                    } else {
                        before
                    },
                ),
                None => None,
            },
    {
        let PatternMatches { pattern, count: before, matches } = self;
        let matches = match matches {
            Some(mut by_file) => {
                let ghost held = by_file.deep_view();
                if locations.len() > 0 {
                    by_file.push(FileMatches { file, locations });
                    assert(by_file.deep_view() =~= held.push((file, locations@)));
                }
                Some(by_file)
            },
            None => None,
        };
        PatternMatches { pattern, count: before.saturating_add(count), matches }
    }
}

/// What `finder` finds in one record.
pub open spec fn record_spans(finder: Finder, record: Record) -> Seq<(usize, usize)> {
    match record {
        Some(text) => finder(text),
        None => Seq::empty(),
    }
}

/// Counts the matches of a compiled expression in the record at `line`
/// and, if asked, collects their places: the number is added to `count`,
/// the places are appended to `locations`.
pub fn search_record(
    re: &Regex,
    record: &DataInstance,
    line: usize,
    with_locations: bool,
    count: &mut usize,
    locations: &mut Vec<MatchLocation>,
)
    ensures
        *final(count) == pinned(
            *old(count) + record_spans(by_expression(*re), record.deep_view()).len(),
        ),
        final(locations)@ == old(locations)@ + if with_locations {
            located(record_spans(by_expression(*re), record.deep_view()), line)
        } else {
            Seq::empty()
        },
{
    match &record.text {
        Some(text) => {
            let spans = find_spans(re, text.as_str());
            *count = count.saturating_add(spans.len());
            let ghost before = locations@;
            if with_locations {
                let mut i: usize = 0;
                while i < spans.len()
                    invariant
                        i <= spans@.len(),
                        locations@ == before + located(spans@, line).take(i as int),
                    decreases spans@.len() - i,
                {
                    locations.push(MatchLocation { line, start_col: spans[i].0, end_col: spans[i].1 });
                    assert(locations@ =~= before + located(spans@, line).take(i + 1));
                    i += 1;
                }
                assert(located(spans@, line).take(spans@.len() as int) =~= located(spans@, line));
            } else {
                assert(locations@ =~= before + Seq::<MatchLocation>::empty());
            }
        },
        None => {
            assert(locations@ =~= old(locations)@ + Seq::<MatchLocation>::empty());
            assert(located(Seq::<(usize, usize)>::empty(), line) =~= Seq::<MatchLocation>::empty());
        },
    }
}

/// Counts the matches of a compiled expression in the first `limit`
/// records of a file and, if asked, collects their places.
pub fn search_file(
    re: &Regex,
    records: &Vec<DataInstance>,
    limit: Option<usize>,
    with_locations: bool,
) -> (out: (usize, Vec<MatchLocation>))
    ensures
        out.0 == pinned(
            file_locations(by_expression(*re), limited(records.deep_view(), limit)).len() as int,
        ),
        out.1@ == if with_locations {
            file_locations(by_expression(*re), limited(records.deep_view(), limit))
        } else {
            Seq::empty()
        },
{
    let take = limited_len(records.len(), limit);
    let ghost all = limited(records.deep_view(), limit);
    let ghost finder = by_expression(*re);
    let mut count: usize = 0;
    let mut locations: Vec<MatchLocation> = Vec::new();
    let mut r: usize = 0;
    proof {
        assert(all.take(0) =~= Seq::<Record>::empty());
    }
    while r < take
        invariant
            r <= take,
            take <= records@.len(),
            all == limited(records.deep_view(), limit),
            all.len() == take,
            finder == by_expression(*re),
            count == pinned(file_locations(finder, all.take(r as int)).len() as int),
            locations@ == if with_locations {
                file_locations(finder, all.take(r as int))
            } else {
                Seq::empty()
            },
        decreases take - r,
    {
        proof {
            assert(all.take(r + 1).drop_last() =~= all.take(r as int));
            assert(all.take(r + 1).last() == records@[r as int].deep_view());
        }
        search_record(re, &records[r], r + 1, with_locations, &mut count, &mut locations);
        proof {
            assert(record_spans(finder, all[r as int]).len() == match all[r as int] {
                Some(text) => located(finder(text), (r + 1) as usize).len(),
                None => 0,
            });
        }
        r += 1;
    }
    assert(all.take(take as int) =~= all);
    (count, locations)
}

/// Counts the matches of a compiled expression in the files and, if
/// asked, collects their places file by file.
pub fn search_files(re: &Regex, files: &Vec<Vec<DataInstance>>, opt: &Opt) -> (found: PatternMatches)
    ensures
        found_by(by_expression(*re), regex_source(*re), files.deep_view(), *opt, found),
{
    let take = limited_len(files.len(), opt.file_limit);
    let ghost all = limited(files.deep_view(), opt.file_limit);
    let ghost finder = by_expression(*re);
    let mut found = PatternMatches::new(re, opt.with_locations);
    let mut f: usize = 0;
    proof {
        assert(all.take(0) =~= Seq::<Seq<Record>>::empty());
    }
    while f < take
        invariant
            f <= take,
            take <= files@.len(),
            all == limited(files.deep_view(), opt.file_limit),
            all.len() == take,
            finder == by_expression(*re),
            found.pattern@ == regex_source(*re),
            found.count == pinned(total_matches(finder, all.take(f as int), opt.limit) as int),
            found.matches.deep_view() == if opt.with_locations {
                Some(matches_by_file(finder, all.take(f as int), opt.limit))
            } else {
                None
            },
        decreases take - f,
    {
        proof {
            assert(all.take(f + 1).drop_last() =~= all.take(f as int));
            assert(all.take(f + 1).last() == files@[f as int].deep_view());
        }
        let (here, locations) = search_file(re, &files[f], opt.limit, opt.with_locations);
        found = found.add_file(f, here, locations);
        f += 1;
    }
    assert(all.take(take as int) =~= all);
    found
}

/// The pattern-search task: checks the settings, compiles the patterns,
/// and reports for each distinct pattern the number of its matches in the
/// files and, if asked, their places.
pub fn search(files: &Vec<Vec<DataInstance>>, patterns: &Vec<String>, opt: &Opt) -> (r: Result<
    Vec<PatternMatches>,
    SearchError,
>)
    ensures
        r is Ok <==> invalid(files@.len(), patterns@.len(), *opt) is None && first_invalid(
            patterns.deep_view(),
        ) == patterns@.len(),
        r matches Ok(found) ==> {
            &&& found@.len() == distinct_patterns(patterns.deep_view()).len()
            &&& forall|s: int|
                0 <= s < found@.len() ==> found_of(
                    distinct_patterns(patterns.deep_view())[s],
                    files.deep_view(),
                    *opt,
                    #[trigger] found@[s],
                )
        },
        r matches Err(SearchError::Config(e)) ==> invalid(files@.len(), patterns@.len(), *opt)
            == Some(e),
        r matches Err(SearchError::BadPattern(index, message)) ==> {
            &&& invalid(files@.len(), patterns@.len(), *opt) is None
            &&& index < patterns@.len()
            &&& first_invalid(patterns.deep_view()) == index
        },
{
    match validate(files.len(), patterns.len(), opt) {
        Err(e) => {
            return Err(SearchError::Config(e));
        },
        Ok(_) => {},
    }
    let compiled = match compile_patterns(patterns) {
        Ok(compiled) => compiled,
        Err(bad) => {
            return Err(SearchError::BadPattern(bad.0, bad.1));
        },
    };
    let ghost distinct = distinct_patterns(patterns.deep_view());
    let mut found: Vec<PatternMatches> = Vec::new();
    let mut p: usize = 0;
    while p < compiled.len()
        invariant
            p <= compiled@.len(),
            distinct == distinct_patterns(patterns.deep_view()),
            compiled@.len() == distinct.len(),
            forall|s: int| 0 <= s < compiled@.len() ==> compiled_from(#[trigger] compiled@[s], distinct[s]),
            found@.len() == p,
            forall|s: int|
                0 <= s < found@.len() ==> found_of(distinct[s], files.deep_view(), *opt, #[trigger] found@[s]),
        decreases compiled@.len() - p,
    {
        let one = search_files(&compiled[p], files, opt);
        proof {
            let re = compiled@[p as int];
            assert(compiled_from(re, distinct[p as int]));
            assert forall|text: Seq<char>| #[trigger]
                by_expression(re)(text) == by_pattern(distinct[p as int])(text) by {
                assert(regex_matches(re, text) == regex_spans(distinct[p as int], text));
            }
            lemma_files_agree(
                by_expression(re),
                by_pattern(distinct[p as int]),
                limited(files.deep_view(), opt.file_limit),
                opt.limit,
            );
        }
        found.push(one);
        p += 1;
    }
    Ok(found)
}

/// Once a pattern is not accepted, the first such place does not move when
/// more patterns follow.
pub proof fn lemma_first_invalid_stays(patterns: Seq<Seq<char>>, n: int)
    requires
        0 < n <= patterns.len(),
        first_invalid(patterns.take(n)) == n - 1,
    ensures
        first_invalid(patterns) == n - 1,
    decreases patterns.len() - n,
{
    if n < patterns.len() {
        let front = patterns.drop_last();
        assert(front.take(n) =~= patterns.take(n));
        lemma_first_invalid_stays(front, n);
    } else {
        assert(patterns.take(n) =~= patterns);
    }
}

} // verus!
