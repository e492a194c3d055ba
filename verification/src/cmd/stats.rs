//! Summary statistics of a corpus: totals of tokens, documents and bytes,
//! the extreme document lengths, and pointers to the documents that have
//! them.

use vstd::prelude::*;
use std::collections::VecDeque;
use vstd::string::StringExecFns;
use crate::cmd::util::{DataInstance, Record, limited, limited_len, pinned_sum};
use crate::text::{grouped, separate_with_commas};
use crate::tokens::{tokenize, tokens_of};

verus! {

/// Where a document stands: its file, its line, and its length in tokens.
#[derive(Debug)]
pub struct DocumentPointer {
    pub path: String,
    pub line: usize,
    pub num_tokens: usize,
}

/// A pointer to a document as the contracts see it.
pub struct Pointer {
    pub path: Seq<char>,
    pub line: usize,
    pub num_tokens: usize,
}

impl DeepView for DocumentPointer {
    type V = Pointer;

    open spec fn deep_view(&self) -> Pointer {
        Pointer { path: self.path@, line: self.line, num_tokens: self.num_tokens }
    }
}

/// The statistics that a worker gathers over one file.
#[derive(Debug)]
pub struct LocalStats {
    pub total_tokens: usize,
    pub total_documents: usize,
    pub document_max_tokens: usize,
    pub document_min_tokens: usize,
    pub max_token_documents: Vec<DocumentPointer>,
    pub min_token_documents: Vec<DocumentPointer>,
}

/// The statistics of a worker as the contracts see them.
pub struct Gathered {
    pub total_tokens: usize,
    pub total_documents: usize,
    pub document_max_tokens: usize,
    pub document_min_tokens: usize,
    pub max_token_documents: Seq<Pointer>,
    pub min_token_documents: Seq<Pointer>,
}

impl DeepView for LocalStats {
    type V = Gathered;

    open spec fn deep_view(&self) -> Gathered {
        Gathered {
            total_tokens: self.total_tokens,
            total_documents: self.total_documents,
            document_max_tokens: self.document_max_tokens,
            document_min_tokens: self.document_min_tokens,
            max_token_documents: self.max_token_documents.deep_view(),
            min_token_documents: self.min_token_documents.deep_view(),
        }
    }
}

/// The statistics of the whole corpus.
#[derive(Debug)]
pub struct Stats {
    pub total_tokens: usize,
    pub total_documents: usize,
    pub total_bytes: usize,
    pub document_max_tokens: usize,
    pub document_min_tokens: usize,
    pub max_token_documents: VecDeque<DocumentPointer>,
    pub min_token_documents: VecDeque<DocumentPointer>,
}

/// The statistics of the corpus as the contracts see them.
pub struct Summary {
    pub total_tokens: usize,
    pub total_documents: usize,
    pub total_bytes: usize,
    pub document_max_tokens: usize,
    pub document_min_tokens: usize,
    pub max_token_documents: Seq<Pointer>,
    pub min_token_documents: Seq<Pointer>,
}

impl DeepView for Stats {
    type V = Summary;

    open spec fn deep_view(&self) -> Summary {
        Summary {
            total_tokens: self.total_tokens,
            total_documents: self.total_documents,
            total_bytes: self.total_bytes,
            document_max_tokens: self.document_max_tokens,
            document_min_tokens: self.document_min_tokens,
            max_token_documents: self.max_token_documents.deep_view(),
            min_token_documents: self.min_token_documents.deep_view(),
        }
    }
}

/// The documents without the leading ones that are shorter than `max`.
pub open spec fn pruned_below(docs: Seq<Pointer>, max: usize) -> Seq<Pointer>
    decreases docs.len(),
{
    if docs.len() > 0 && docs.first().num_tokens < max {
        pruned_below(docs.drop_first(), max)
    } else {
        docs
    }
}

/// The documents without the leading ones that are longer than `min`.
pub open spec fn pruned_above(docs: Seq<Pointer>, min: usize) -> Seq<Pointer>
    decreases docs.len(),
{
    if docs.len() > 0 && docs.first().num_tokens > min {
        pruned_above(docs.drop_first(), min)
    } else {
        docs
    }
}

/// The documents that have at least `bound` tokens, in order.
pub open spec fn at_least(docs: Seq<Pointer>, bound: usize) -> Seq<Pointer>
    decreases docs.len(),
{
    if docs.len() == 0 {
        docs
    } else if docs.last().num_tokens >= bound {
        at_least(docs.drop_last(), bound).push(docs.last())
    } else {
        at_least(docs.drop_last(), bound)
    }
}

/// The documents that have at most `bound` tokens, in order.
pub open spec fn at_most(docs: Seq<Pointer>, bound: usize) -> Seq<Pointer>
    decreases docs.len(),
{
    if docs.len() == 0 {
        docs
    } else if docs.last().num_tokens <= bound {
        at_most(docs.drop_last(), bound).push(docs.last())
    } else {
        at_most(docs.drop_last(), bound)
    }
}

/// The larger of two numbers.
pub open spec fn larger(a: usize, b: usize) -> usize {
    if a > b {
        a
    } else {
        b
    }
}

/// The smaller of two numbers.
pub open spec fn smaller(a: usize, b: usize) -> usize {
    if a < b {
        a
    } else {
        b
    }
}

/// A worker's statistics after one more record, which stands at `line` of
/// `path` and has `num_tokens` tokens if it has a text. A record without
/// text counts as a document and changes nothing else. A document as long
/// as the longest so far, or as short as the shortest, is pointed to.
pub open spec fn recorded(g: Gathered, num_tokens: Option<usize>, path: Seq<char>, line: usize) -> Gathered {
    match num_tokens {
        None => Gathered { total_documents: pinned_sum(g.total_documents, 1), ..g },
        Some(n) => {
            let here = Pointer { path, line, num_tokens: n };
            Gathered {
                total_tokens: pinned_sum(g.total_tokens, n),
                total_documents: pinned_sum(g.total_documents, 1),
                document_max_tokens: larger(n, g.document_max_tokens),
                document_min_tokens: smaller(n, g.document_min_tokens),
                max_token_documents: if n >= g.document_max_tokens {
                    g.max_token_documents.push(here)
                } else {
                    g.max_token_documents
                },
                min_token_documents: if n <= g.document_min_tokens {
                    g.min_token_documents.push(here)
                } else {
                    g.min_token_documents
                },
            }
        },
    }
}

/// The statistics without the pointers at the head of each list that the
/// extremes have left behind: documents shorter than the longest, and
/// documents longer than the shortest, up to the first that still holds.
pub open spec fn pruned(s: Summary) -> Summary {
    Summary {
        max_token_documents: pruned_below(s.max_token_documents, s.document_max_tokens),
        min_token_documents: pruned_above(s.min_token_documents, s.document_min_tokens),
        ..s
    }
}

/// The statistics that a worker starts a file with: the extremes known so
/// far, and nothing else.
pub open spec fn started(s: Summary) -> Gathered {
    Gathered {
        total_tokens: 0,
        total_documents: 0,
        document_max_tokens: s.document_max_tokens,
        document_min_tokens: s.document_min_tokens,
        max_token_documents: Seq::empty(),
        min_token_documents: Seq::empty(),
    }
}

/// The statistics after those of a worker were taken in: the totals are
/// added, the extremes widened, the pointers pruned, and of the worker's
/// pointers those are appended that still reach the extremes.
pub open spec fn merged(s: Summary, g: Gathered) -> Summary {
    let max = larger(g.document_max_tokens, s.document_max_tokens);
    let min = smaller(g.document_min_tokens, s.document_min_tokens);
    Summary {
        total_tokens: pinned_sum(s.total_tokens, g.total_tokens),
        total_documents: pinned_sum(s.total_documents, g.total_documents),
        total_bytes: s.total_bytes,
        document_max_tokens: max,
        document_min_tokens: min,
        max_token_documents: pruned_below(s.max_token_documents, max) + at_least(
            g.max_token_documents,
            max,
        ),
        min_token_documents: pruned_above(s.min_token_documents, min) + at_most(
            g.min_token_documents,
            min,
        ),
    }
}

/// The number of tokens of a record, if it has a text.
pub open spec fn length_of(record: Record) -> Option<usize> {
    match record {
        Some(text) => Some(tokens_of(text).len() as usize),
        None => None,
    }
}

/// A worker's statistics after the records of the file `path`, which are
/// numbered from one.
pub open spec fn gathered(g: Gathered, records: Seq<Record>, path: Seq<char>) -> Gathered
    decreases records.len(),
{
    if records.len() == 0 {
        g
    } else {
        recorded(
            gathered(g, records.drop_last(), path),
            length_of(records.last()),
            path,
            records.len() as usize,
        )
    }
}

/// The statistics after one more file was read by a worker and taken in.
pub open spec fn collected(s: Summary, records: Seq<Record>, path: Seq<char>) -> Summary {
    merged(s, gathered(started(s), records, path))
}

impl Default for LocalStats {
    /// No document seen: zero totals, and extremes that any document
    /// replaces.
    fn default() -> (s: LocalStats)
        ensures
            s.deep_view() == (Gathered {
                total_tokens: 0,
                total_documents: 0,
                document_max_tokens: 0,
                document_min_tokens: usize::MAX,
                max_token_documents: Seq::empty(),
                min_token_documents: Seq::empty(),
            }),
    {
        let s = LocalStats {
            total_tokens: 0,
            total_documents: 0,
            document_max_tokens: 0,
            document_min_tokens: usize::MAX,
            max_token_documents: Vec::new(),
            min_token_documents: Vec::new(),
        };
        assert(s.max_token_documents.deep_view() =~= Seq::empty());
        assert(s.min_token_documents.deep_view() =~= Seq::empty());
        s
    }
}

impl Default for Stats {
    /// No document seen: zero totals, and extremes that any document
    /// replaces.
    fn default() -> (s: Stats)
        ensures
            s.deep_view() == (Summary {
                total_tokens: 0,
                total_documents: 0,
                total_bytes: 0,
                document_max_tokens: 0,
                document_min_tokens: usize::MAX,
                max_token_documents: Seq::empty(),
                min_token_documents: Seq::empty(),
            }),
    {
        let s = Stats {
            total_tokens: 0,
            total_documents: 0,
            total_bytes: 0,
            document_max_tokens: 0,
            document_min_tokens: usize::MAX,
            max_token_documents: VecDeque::new(),
            min_token_documents: VecDeque::new(),
        };
        assert(s.max_token_documents.deep_view() =~= Seq::empty());
        assert(s.min_token_documents.deep_view() =~= Seq::empty());
        s
    }
}

impl LocalStats {
    /// Takes note of one record: of its place, and of the number of its
    /// tokens if it has a text.
    pub fn record(&mut self, num_tokens: Option<usize>, path: &str, line: usize)
        ensures
            final(self).deep_view() == recorded(old(self).deep_view(), num_tokens, path@, line),
    {
        let ghost before = self.deep_view();
        self.total_documents = self.total_documents.saturating_add(1);
        if let Some(n) = num_tokens {
            self.total_tokens = self.total_tokens.saturating_add(n);
            if n > self.document_max_tokens {
                self.document_max_tokens = n;
            }
            if n < self.document_min_tokens {
                self.document_min_tokens = n;
            }
            if n == self.document_max_tokens {
                self.max_token_documents.push(
                    DocumentPointer { path: String::from_str(path), line, num_tokens: n },
                );
                assert(self.max_token_documents.deep_view() =~= before.max_token_documents.push(
                    Pointer { path: path@, line, num_tokens: n },
                ));
            }
            if n == self.document_min_tokens {
                self.min_token_documents.push(
                    DocumentPointer { path: String::from_str(path), line, num_tokens: n },
                );
                assert(self.min_token_documents.deep_view() =~= before.min_token_documents.push(
                    Pointer { path: path@, line, num_tokens: n },
                ));
            }
        }
    }
}

impl LocalStats {
    /// Takes note of one record at `line` of `path`, counting the tokens
    /// of its text if it has one.
    pub fn record_instance(&mut self, record: &DataInstance, path: &str, line: usize)
        ensures
            final(self).deep_view() == recorded(
                old(self).deep_view(),
                length_of(record.deep_view()),
                path@,
                line,
            ),
    {
        let num_tokens = match &record.text {
            Some(text) => Some(tokenize(text.as_str()).len()),
            None => None,
        };
        self.record(num_tokens, path, line);
    }
}

impl Stats {
    /// The totals and the extremes, each with its label and with a comma
    /// every three digits.
    pub fn get_display_values(&self) -> (values: Vec<(String, String)>)
        ensures
            values@.len() == 5,
            values@[0].0@ == "total tokens"@,
            values@[0].1@ == grouped(self.total_tokens as nat),
            values@[1].0@ == "total documents"@,
            values@[1].1@ == grouped(self.total_documents as nat),
            values@[2].0@ == "total bytes"@,
            values@[2].1@ == grouped(self.total_bytes as nat),
            values@[3].0@ == "max tokens per document"@,
            values@[3].1@ == grouped(self.document_max_tokens as nat),
            values@[4].0@ == "min tokens per document"@,
            values@[4].1@ == grouped(self.document_min_tokens as nat),
    {
        let mut values: Vec<(String, String)> = Vec::new();
        values.push((String::from_str("total tokens"), separate_with_commas(self.total_tokens)));
        values.push(
            (String::from_str("total documents"), separate_with_commas(self.total_documents)),
        );
        values.push((String::from_str("total bytes"), separate_with_commas(self.total_bytes)));
        values.push(
            (
                String::from_str("max tokens per document"),
                separate_with_commas(self.document_max_tokens),
            ),
        );
        values.push(
            (
                String::from_str("min tokens per document"),
                separate_with_commas(self.document_min_tokens),
            ),
        );
        values
    }

    /// Drops the pointers at the head of each list that the extremes have
    /// since left behind.
    pub fn prune_documents(&mut self)
        ensures
            final(self).deep_view() == pruned(old(self).deep_view()),
    {
        let ghost before = self.deep_view();
        let current_max = self.document_max_tokens;
        while self.max_token_documents.len() > 0 && self.max_token_documents[0].num_tokens
            < current_max
            invariant
                self.total_tokens == before.total_tokens,
                self.total_documents == before.total_documents,
                self.total_bytes == before.total_bytes,
                self.document_max_tokens == before.document_max_tokens,
                self.document_min_tokens == before.document_min_tokens,
                self.min_token_documents.deep_view() == before.min_token_documents,
                current_max == before.document_max_tokens,
                pruned_below(self.max_token_documents.deep_view(), current_max) == pruned_below(
                    before.max_token_documents,
                    current_max,
                ),
            decreases self.max_token_documents@.len(),
        {
            let ghost here = self.max_token_documents.deep_view();
            assert(here.first() == self.max_token_documents@[0].deep_view());
            self.max_token_documents.pop_front();
            assert(self.max_token_documents.deep_view() =~= here.drop_first());
        }
        proof {
            let here = self.max_token_documents.deep_view();
            if here.len() > 0 {
                assert(here.first() == self.max_token_documents@[0].deep_view());
            }
        }
        let current_min = self.document_min_tokens;
        while self.min_token_documents.len() > 0 && self.min_token_documents[0].num_tokens
            > current_min
            invariant
                self.total_tokens == before.total_tokens,
                self.total_documents == before.total_documents,
                self.total_bytes == before.total_bytes,
                self.document_max_tokens == before.document_max_tokens,
                self.document_min_tokens == before.document_min_tokens,
                self.max_token_documents.deep_view() == pruned_below(
                    before.max_token_documents,
                    before.document_max_tokens,
                ),
                current_min == before.document_min_tokens,
                pruned_above(self.min_token_documents.deep_view(), current_min) == pruned_above(
                    before.min_token_documents,
                    current_min,
                ),
            decreases self.min_token_documents@.len(),
        {
            let ghost here = self.min_token_documents.deep_view();
            assert(here.first() == self.min_token_documents@[0].deep_view());
            self.min_token_documents.pop_front();
            assert(self.min_token_documents.deep_view() =~= here.drop_first());
        }
        proof {
            let here = self.min_token_documents.deep_view();
            if here.len() > 0 {
                assert(here.first() == self.min_token_documents@[0].deep_view());
            }
        }
    }

    /// The statistics that a worker starts a file with.
    pub fn local(&self) -> (s: LocalStats)
        ensures
            s.deep_view() == started(self.deep_view()),
    {
        let s = LocalStats {
            total_tokens: 0,
            total_documents: 0,
            document_max_tokens: self.document_max_tokens,
            document_min_tokens: self.document_min_tokens,
            max_token_documents: Vec::new(),
            min_token_documents: Vec::new(),
        };
        assert(s.max_token_documents.deep_view() =~= Seq::empty());
        assert(s.min_token_documents.deep_view() =~= Seq::empty());
        s
    }

    /// Takes in what a worker gathered over one file.
    pub fn merge(&mut self, local: LocalStats)
        ensures
            final(self).deep_view() == merged(old(self).deep_view(), local.deep_view()),
    {
        let ghost before = self.deep_view();
        let ghost g = local.deep_view();
        self.total_tokens = self.total_tokens.saturating_add(local.total_tokens);
        self.total_documents = self.total_documents.saturating_add(local.total_documents);
        if local.document_max_tokens > self.document_max_tokens {
            self.document_max_tokens = local.document_max_tokens;
        }
        if local.document_min_tokens < self.document_min_tokens {
            self.document_min_tokens = local.document_min_tokens;
        }
        self.prune_documents();
        let current_max = self.document_max_tokens;
        let current_min = self.document_min_tokens;
        let ghost kept_max = self.max_token_documents.deep_view();
        let ghost kept_min = self.min_token_documents.deep_view();
        let ghost all_max = g.max_token_documents;
        let ghost all_min = g.min_token_documents;
        let ghost total_tokens = self.total_tokens;
        let ghost total_documents = self.total_documents;
        let LocalStats { max_token_documents, min_token_documents, .. } = local;
        assert(all_max.take(0) =~= Seq::<Pointer>::empty());
        assert(all_min.take(0) =~= Seq::<Pointer>::empty());
        assert(self.max_token_documents.deep_view() =~= kept_max + at_least(all_max.take(0), current_max));
        for doc in it: max_token_documents
            invariant
                it.seq() == max_token_documents@,
                all_max == max_token_documents.deep_view(),
                self.total_tokens == total_tokens,
                self.total_documents == total_documents,
                self.total_bytes == before.total_bytes,
                self.document_max_tokens == current_max,
                self.document_min_tokens == current_min,
                self.min_token_documents.deep_view() == kept_min,
                self.max_token_documents.deep_view() == kept_max + at_least(
                    all_max.take(it.index() as int),
                    current_max,
                ),
        {
            let ghost here = self.max_token_documents.deep_view();
            proof {
                assert(all_max.take(it.index() + 1).drop_last() =~= all_max.take(it.index() as int));
                assert(all_max.take(it.index() + 1).last() == doc.deep_view());
            }
            if doc.num_tokens >= current_max {
                self.max_token_documents.push_back(doc);
                assert(self.max_token_documents.deep_view() =~= here.push(doc.deep_view()));
            }
            assert(self.max_token_documents.deep_view() =~= kept_max + at_least(
                all_max.take(it.index() + 1),
                current_max,
            ));
        }
        assert(all_max.take(all_max.len() as int) =~= all_max);
        let ghost done_max = self.max_token_documents.deep_view();
        assert(self.min_token_documents.deep_view() =~= kept_min + at_most(all_min.take(0), current_min));
        for doc in it: min_token_documents
            invariant
                it.seq() == min_token_documents@,
                all_min == min_token_documents.deep_view(),
                self.total_tokens == total_tokens,
                self.total_documents == total_documents,
                self.total_bytes == before.total_bytes,
                self.document_max_tokens == current_max,
                self.document_min_tokens == current_min,
                self.max_token_documents.deep_view() == done_max,
                self.min_token_documents.deep_view() == kept_min + at_most(
                    all_min.take(it.index() as int),
                    current_min,
                ),
        {
            let ghost here = self.min_token_documents.deep_view();
            proof {
                assert(all_min.take(it.index() + 1).drop_last() =~= all_min.take(it.index() as int));
                assert(all_min.take(it.index() + 1).last() == doc.deep_view());
            }
            if doc.num_tokens <= current_min {
                self.min_token_documents.push_back(doc);
                assert(self.min_token_documents.deep_view() =~= here.push(doc.deep_view()));
            }
            assert(self.min_token_documents.deep_view() =~= kept_min + at_most(
                all_min.take(it.index() + 1),
                current_min,
            ));
        }
        assert(all_min.take(all_min.len() as int) =~= all_min);
    }

    /// Reads the first `limit` records of the file `path` as a worker
    /// does, counting the tokens of each text, and takes the result in.
    pub fn collect_file(&mut self, records: &Vec<DataInstance>, path: &str, limit: Option<usize>)
        ensures
            final(self).deep_view() == collected(
                old(self).deep_view(),
                limited(records.deep_view(), limit),
                path@,
            ),
    {
        let take = limited_len(records.len(), limit);
        let ghost all = limited(records.deep_view(), limit);
        let mut local = self.local();
        let ghost first = local.deep_view();
        let mut r: usize = 0;
        proof {
            assert(all.take(0) =~= Seq::<Record>::empty());
        }
        while r < take
            invariant
                r <= take,
                take <= records@.len(),
                all == limited(records.deep_view(), limit),
                all.len() == take,
                local.deep_view() == gathered(first, all.take(r as int), path@),
            decreases take - r,
        {
            proof {
                assert(all.take(r + 1).drop_last() =~= all.take(r as int));
                assert(all.take(r + 1).last() == records@[r as int].deep_view());
            }
            local.record_instance(&records[r], path, r + 1);
            r += 1;
        }
        assert(all.take(take as int) =~= all);
        self.merge(local);
    }
}

} // verus!
