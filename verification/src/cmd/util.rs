//! What the tasks share: the record, the ways a task's settings can be
//! wrong, and the n-grams of a file and of a corpus.

use vstd::prelude::*;
use vstd::string::StringExecFns;
use rand::SeedableRng;
use rand::rngs::StdRng;
use rand::seq::SliceRandom;
use crate::ngrams::counter::{CounterError, HashSeed, NgramKey, seeds_of, seeded_words};
use crate::ngrams::pipeline::unit_updates;
use crate::ngrams::window::windows;
use crate::s3::{data_key, is_data_key, is_s3, s3_scheme};
use crate::text::{chars_of, starts_with};
use crate::tokens::tokens_of;

verus! {

/// One decoded record: its text, if it has one.
#[derive(Debug)]
pub struct DataInstance {
    pub text: Option<String>,
}

/// A record as the contracts see it: the characters of its text.
pub type Record = Option<Seq<char>>;

impl DeepView for DataInstance {
    type V = Record;

    open spec fn deep_view(&self) -> Record {
        match self.text {
            Some(text) => Some(text@),
            None => None,
        }
    }
}

/// Why a task did not start.
#[derive(Clone, Copy, Debug, PartialEq, Eq, Structural)]
pub enum ConfigError {
    /// No input was given.
    NoPaths,
    /// The number of n-grams to return is zero.
    ZeroK,
    /// The size budget is zero.
    ZeroSize,
    /// The number of hash functions is zero.
    ZeroHashes,
    /// The n-gram length is zero.
    ZeroNgram,
    /// The keep limit exceeds what a draw can reach.
    KeepOutOfRange,
    /// No search term was given.
    NoSearchTerms,
    /// No pattern was given.
    NoPatterns,
    /// The limit on the number of files is zero.
    ZeroFileLimit,
    /// The counting table could not be made.
    Counter(CounterError),
}

/// The first `limit` of `items`, or all of them where there is no limit or
/// there are fewer.
pub open spec fn limited<T>(items: Seq<T>, limit: Option<usize>) -> Seq<T> {
    match limit {
        Some(l) => if l < items.len() {
            items.take(l as int)
        } else {
            items
        },
        None => items,
    }
}

/// The number of items that a limit leaves.
pub fn limited_len(len: usize, limit: Option<usize>) -> (n: usize)
    ensures
        n <= len,
        n == match limit {
            Some(l) => if l < len {
                l
            } else {
                len
            },
            None => len,
        },
{
    match limit {
        Some(l) => if l < len {
            l
        } else {
            len
        },
        None => len,
    }
}

/// The n-grams of a record, in order; none for a record without text.
pub open spec fn record_keys(record: Record, n: nat) -> Seq<NgramKey> {
    match record {
        Some(text) => windows(tokens_of(text), n),
        None => Seq::empty(),
    }
}

/// The n-grams of the records of a file, in order.
pub open spec fn file_keys(records: Seq<Record>, n: nat) -> Seq<NgramKey>
    decreases records.len(),
{
    if records.len() == 0 {
        Seq::empty()
    } else {
        file_keys(records.drop_last(), n) + record_keys(records.last(), n)
    }
}

/// The n-grams of the files of a corpus, in order, with at most `limit`
/// records read of each file.
pub open spec fn corpus_keys(files: Seq<Seq<Record>>, n: nat, limit: Option<usize>) -> Seq<NgramKey>
    decreases files.len(),
{
    if files.len() == 0 {
        Seq::empty()
    } else {
        corpus_keys(files.drop_last(), n, limit) + file_keys(limited(files.last(), limit), n)
    }
}

/// The hash seeds of a fresh table with `hashes` hash functions: those
/// drawn from `seed` where there is one, else any.
pub open spec fn fresh_seeds(seeds: Seq<HashSeed>, hashes: nat, seed: Option<u64>) -> bool {
    &&& seeds.len() == hashes
    &&& seed matches Some(s) ==> seeds == seeds_of(seeded_words(s, 4 * hashes))
}

/// Counting each of two runs of n-grams once is counting their
/// concatenation once.
pub proof fn lemma_unit_updates_concat(first: Seq<NgramKey>, second: Seq<NgramKey>)
    ensures
        unit_updates(first + second) == unit_updates(first) + unit_updates(second),
{
    assert(unit_updates(first + second) =~= unit_updates(first) + unit_updates(second));
}

/// The n-grams of two files read one after the other are the n-grams of
/// the file that holds the records of both.
pub proof fn lemma_file_keys_concat(first: Seq<Record>, second: Seq<Record>, n: nat)
    ensures
        file_keys(first + second, n) == file_keys(first, n) + file_keys(second, n),
    decreases second.len(),
{
    if second.len() == 0 {
        assert(first + second =~= first);
        assert(file_keys(first, n) + file_keys(second, n) =~= file_keys(first, n));
    } else {
        assert((first + second).drop_last() =~= first + second.drop_last());
        lemma_file_keys_concat(first, second.drop_last(), n);
        assert(file_keys(first + second, n) =~= file_keys(first, n) + file_keys(second, n));
    }
}

impl ConfigError {
    /// The words that tell the user what is wrong.
    pub fn message(&self) -> (m: String)
        ensures
            m@ == match *self {
                ConfigError::NoPaths => "at least one path is required"@,
                ConfigError::ZeroK => "-k/--topk must be greater than 0"@,
                ConfigError::ZeroSize => "--size must be greater than 0"@,
                ConfigError::ZeroHashes => "-h/--hashes must be greater than 0"@,
                ConfigError::ZeroNgram => "-n/--ngram must be greater than 0"@,
                ConfigError::KeepOutOfRange => "--p-keep must be between in the interval (0, 1]"@,
                ConfigError::NoSearchTerms => "At least one -s/--search term is required"@,
                ConfigError::NoPatterns => "At least one -p/--pattern regex term is required"@,
                ConfigError::ZeroFileLimit => "File limit cannot be 0"@,
                ConfigError::Counter(CounterError::NoHashes) => "-h/--hashes must be greater than 0"@,
                ConfigError::Counter(CounterError::NoLanes) => "--size is smaller than one counter"@,
                ConfigError::Counter(CounterError::InitialTooLarge) => "the initial count does not fit a counter"@,
                ConfigError::Counter(CounterError::TooManyHashes) => "-h/--hashes is too large"@,
            },
    {
        match self {
            ConfigError::NoPaths => String::from_str("at least one path is required"),
            ConfigError::ZeroK => String::from_str("-k/--topk must be greater than 0"),
            ConfigError::ZeroSize => String::from_str("--size must be greater than 0"),
            ConfigError::ZeroHashes => String::from_str("-h/--hashes must be greater than 0"),
            ConfigError::ZeroNgram => String::from_str("-n/--ngram must be greater than 0"),
            ConfigError::KeepOutOfRange => String::from_str(
                "--p-keep must be between in the interval (0, 1]",
            ),
            ConfigError::NoSearchTerms => String::from_str("At least one -s/--search term is required"),
            ConfigError::NoPatterns => String::from_str(
                "At least one -p/--pattern regex term is required",
            ),
            ConfigError::ZeroFileLimit => String::from_str("File limit cannot be 0"),
            ConfigError::Counter(CounterError::NoHashes) => String::from_str(
                "-h/--hashes must be greater than 0",
            ),
            ConfigError::Counter(CounterError::NoLanes) => String::from_str(
                "--size is smaller than one counter",
            ),
            ConfigError::Counter(CounterError::InitialTooLarge) => String::from_str(
                "the initial count does not fit a counter",
            ),
            ConfigError::Counter(CounterError::TooManyHashes) => String::from_str(
                "-h/--hashes is too large",
            ),
        }
    }
}

/// `n`, pinned at the largest `usize`.
pub open spec fn pinned(n: int) -> usize {
    if n > usize::MAX {
        usize::MAX
    } else {
        n as usize
    }
}

/// `a + b`, pinned at the largest `usize`.
pub open spec fn pinned_sum(a: usize, b: usize) -> usize {
    pinned(a + b)
}

/// The number of workers for `paths` inputs on a machine with `cpus`
/// processors: no more than were asked for, than there are processors,
/// than sixty-four, or than there are inputs, and at least one.
pub open spec fn workers_for(max_workers: Option<usize>, cpus: usize, paths: usize) -> usize {
    let by_machine = if cpus < 64 {
        cpus
    } else {
        64
    };
    let by_request = match max_workers {
        Some(asked) => if asked < by_machine {
            asked
        } else {
            by_machine
        },
        None => by_machine,
    };
    let by_inputs = if paths < by_request {
        paths
    } else {
        by_request
    };
    if by_inputs < 1 {
        1
    } else {
        by_inputs
    }
}

/// The number of workers for `paths` inputs on a machine with `cpus`
/// processors.
pub fn worker_count(max_workers: Option<usize>, cpus: usize, paths: usize) -> (w: usize)
    ensures
        w == workers_for(max_workers, cpus, paths),
        1 <= w <= 64,
{
    let mut w: usize = if cpus < 64 {
        cpus
    } else {
        64
    };
    if let Some(asked) = max_workers {
        if asked < w {
            w = asked;
        }
    }
    if paths < w {
        w = paths;
    }
    if w < 1 {
        w = 1;
    }
    w
}

/// Calls `num_cpus::get`. Trusted: states that there is at least one
/// processor, as the crate documents; how many depends on the machine.
#[verifier::external_body]
fn available_cpus() -> (n: usize)
    ensures
        n >= 1,
{
    num_cpus::get()
}

/// What a worker does after an attempt at a file.
#[derive(Clone, Copy, Debug, PartialEq, Eq, Structural)]
pub enum Next {
    /// The file is done.
    Finish,
    /// The file is read again from its start.
    Retry,
    /// The file is given up and every worker stops.
    GiveUp,
}

/// The words of the error that `join` returns when no worker left one.
pub open spec fn unnamed_failure() -> Seq<char> {
    "Thread worker(s) finished with errors"@
}

/// The shared state of the workers of one pass over the files, and the
/// decisions that are taken on it.
#[derive(Debug)]
pub struct DataExecutor {
    /// The lines read of the files that are done.
    pub total_lines: usize,
    /// The bytes read of the files that are done.
    pub total_bytes: usize,
    /// How often a file that failed is read again.
    pub max_retries: usize,
    /// At most this many records are read of each file.
    pub limit: Option<usize>,
    /// Whether the workers were told to stop.
    pub early_exit: bool,
    /// The last error that a worker left.
    pub error: Option<String>,
    /// The number of attempts that failed.
    pub error_count: usize,
    /// The number of files that are done.
    pub files_done: usize,
    /// The number of workers.
    pub max_workers: usize,
    /// Whether progress is not shown.
    pub quiet: bool,
}

impl DataExecutor {
    /// The last error that a worker left, as its characters.
    pub open spec fn last_error(&self) -> Option<Seq<char>> {
        match self.error {
            Some(text) => Some(text@),
            None => None,
        }
    }

    /// The state before any file is read, with the number of workers that
    /// the inputs and the machine allow.
    pub fn new(paths: usize, max_workers: Option<usize>, limit: Option<usize>, quiet: bool) -> (e:
        DataExecutor)
        ensures
            e.total_lines == 0,
            e.total_bytes == 0,
            e.max_retries == 0,
            e.limit == limit,
            !e.early_exit,
            e.last_error() is None,
            e.error_count == 0,
            e.files_done == 0,
            e.quiet == quiet,
            exists|cpus: usize| cpus >= 1 && e.max_workers == #[trigger] workers_for(max_workers, cpus, paths),
    {
        let cpus = available_cpus();
        let workers = worker_count(max_workers, cpus, paths);
        DataExecutor {
            total_lines: 0,
            total_bytes: 0,
            max_retries: 0,
            limit,
            early_exit: false,
            error: None,
            error_count: 0,
            files_done: 0,
            max_workers: workers,
            quiet,
        }
    }

    /// Whether the progress of single files is not shown: when nothing is,
    /// or with more than thirty-two workers.
    pub fn hide_file_progress(&self) -> (hide: bool)
        ensures
            hide == (self.quiet || self.max_workers > 32),
    {
        self.quiet || self.max_workers > 32
    }

    /// Whether a worker may begin `path`: it is a regular file, or an
    /// object-store location. If not, every worker is told to stop.
    pub fn accepts(&mut self, path: &str, is_file: bool) -> (ok: bool)
        ensures
            ok == (is_file || starts_with(path@, s3_scheme())),
            final(self).early_exit == (old(self).early_exit || !ok),
            final(self).total_lines == old(self).total_lines,
            final(self).total_bytes == old(self).total_bytes,
            final(self).max_retries == old(self).max_retries,
            final(self).limit == old(self).limit,
            final(self).last_error() == old(self).last_error(),
            final(self).error_count == old(self).error_count,
            final(self).files_done == old(self).files_done,
            final(self).max_workers == old(self).max_workers,
            final(self).quiet == old(self).quiet,
    {
        let ok = is_file || is_s3(path);
        if !ok {
            self.early_exit = true;
        }
        ok
    }

    /// Takes note of a file that was read to its end: its lines and bytes
    /// are added to the totals, and one more file is done.
    pub fn succeeded(&mut self, lines: usize, bytes: usize)
        ensures
            final(self).total_lines == pinned_sum(old(self).total_lines, lines),
            final(self).total_bytes == pinned_sum(old(self).total_bytes, bytes),
            final(self).files_done == pinned_sum(old(self).files_done, 1),
            final(self).max_retries == old(self).max_retries,
            final(self).limit == old(self).limit,
            final(self).early_exit == old(self).early_exit,
            final(self).last_error() == old(self).last_error(),
            final(self).error_count == old(self).error_count,
            final(self).max_workers == old(self).max_workers,
            final(self).quiet == old(self).quiet,
    {
        self.total_lines = self.total_lines.saturating_add(lines);
        self.total_bytes = self.total_bytes.saturating_add(bytes);
        self.files_done = self.files_done.saturating_add(1);
    }

    /// Takes note of an attempt that failed after `retries` earlier
    /// attempts at the same file: the error is counted, and the file is
    /// read again unless its retries are used up, in which case every
    /// worker is told to stop. The error is kept as the last one, unless
    /// the workers were told to stop before: the error that stopped them,
    /// the first fatal one, is not replaced.
    pub fn failed(&mut self, retries: usize, message: String) -> (next: Next)
        ensures
            next == if retries >= old(self).max_retries {
                Next::GiveUp
            } else {
                Next::Retry
            },
            final(self).early_exit == (old(self).early_exit || retries >= old(self).max_retries),
            final(self).error_count == pinned_sum(old(self).error_count, 1),
            final(self).last_error() == if old(self).early_exit {
                old(self).last_error()
            } else {
                Some(message@)
            },
            final(self).total_lines == old(self).total_lines,
            final(self).total_bytes == old(self).total_bytes,
            final(self).files_done == old(self).files_done,
            final(self).max_retries == old(self).max_retries,
            final(self).limit == old(self).limit,
            final(self).max_workers == old(self).max_workers,
            final(self).quiet == old(self).quiet,
    {
        self.error_count = self.error_count.saturating_add(1);
        if !self.early_exit {
            self.error = Some(message);
        }
        if retries >= self.max_retries {
            self.early_exit = true;
            Next::GiveUp
        } else {
            Next::Retry
        }
    }

    /// Whether nothing is left to wait for: no job runs or waits, or a
    /// worker panicked, or the workers were told to stop.
    pub fn done(&self, active: usize, queued: usize, panics: usize) -> (d: bool)
        ensures
            d == ((active == 0 && queued == 0) || panics > 0 || self.early_exit),
    {
        (active == 0 && queued == 0) || panics > 0 || self.early_exit
    }

    /// Whether the workers were told to stop.
    pub fn has_errors(&self) -> (b: bool)
        ensures
            b == self.early_exit,
    {
        self.early_exit
    }

    /// The outcome of the pass once every worker has returned: the error
    /// kept, which is the first fatal one where there was one, or a
    /// general one where none was left, if the workers were told to stop
    /// or one of them panicked; otherwise the number of attempts that
    /// failed and were made good by a retry.
    pub fn join(&self, panics: usize) -> (r: Result<usize, String>)
        ensures
            r is Err <==> self.early_exit || panics > 0,
            r matches Ok(recovered) ==> recovered == self.error_count,
            r matches Err(text) ==> text@ == match self.last_error() {
                Some(last) => last,
                None => unnamed_failure(),
            },
    {
        if self.early_exit || panics > 0 {
            match &self.error {
                Some(text) => Err(text.clone()),
                None => Err(String::from_str("Thread worker(s) finished with errors")),
            }
        } else {
            Ok(self.error_count)
        }
    }
}

/// The lines and bytes read of one file so far.
#[derive(Clone, Copy, Debug, PartialEq, Eq, Structural)]
pub struct FileProgress {
    pub total_lines: usize,
    pub total_bytes: usize,
}

impl FileProgress {
    /// Nothing read.
    pub fn new() -> (p: FileProgress)
        ensures
            p.total_lines == 0,
            p.total_bytes == 0,
    {
        FileProgress { total_lines: 0, total_bytes: 0 }
    }

    /// Whether one more record is read, given how many were and the limit.
    pub fn wants_more(&self, read: usize, limit: Option<usize>) -> (more: bool)
        ensures
            more == match limit {
                Some(l) => read < l,
                None => true,
            },
    {
        match limit {
            Some(l) => read < l,
            None => true,
        }
    }

    /// Takes in a line of `len` bytes. Once the workers were told to stop
    /// the line is passed over; otherwise it is counted, and its number in
    /// the file, from one, is returned for the record to be handled under.
    pub fn line(&mut self, len: usize, early_exit: bool) -> (number: Option<usize>)
        ensures
            early_exit ==> number is None && *final(self) == *old(self),
            !early_exit ==> {
                &&& final(self).total_lines == pinned_sum(old(self).total_lines, 1)
                &&& final(self).total_bytes == pinned_sum(old(self).total_bytes, len)
                &&& number == Some(final(self).total_lines)
            },
    {
        if early_exit {
            return None;
        }
        self.total_lines = self.total_lines.saturating_add(1);
        self.total_bytes = self.total_bytes.saturating_add(len);
        Some(self.total_lines)
    }
}

/// Why a size could not be read.
#[derive(Clone, Copy, Debug, PartialEq, Eq, Structural)]
pub enum SizeError {
    /// The input holds no number.
    Empty,
    /// The input holds a character that belongs to no number or unit.
    InvalidDigit,
    /// The size does not fit sixty-four bits.
    PosOverflow,
    /// The input holds digits on which the parser's arithmetic overflows.
    TooManyDigits,
    /// Another reason, which a later version of the parser may give.
    Other,
}

/// The most digits that a size is read with: the parser counts them in
/// thirty-two bits.
pub const MAX_DIGITS: usize = 0x7fff_ffff;

/// Whether `c` is one of the digits `0` to `9`.
pub open spec fn is_digit(c: char) -> bool {
    '0' <= c && c <= '9'
}

/// The number of digits in `src`.
pub open spec fn digit_count(src: Seq<char>) -> nat
    decreases src.len(),
{
    if src.len() == 0 {
        0
    } else {
        digit_count(src.drop_last()) + if is_digit(src.last()) {
            1nat
        } else {
            0nat
        }
    }
}

/// The digits of `src` in their order, without the zeros that lead them.
pub open spec fn significant(src: Seq<char>) -> Seq<char>
    decreases src.len(),
{
    if src.len() == 0 {
        Seq::empty()
    } else {
        let before = significant(src.drop_last());
        let c = src.last();
        if !is_digit(c) || (before.len() == 0 && c == '0') {
            before
        } else {
            before.push(c)
        }
    }
}

/// The digits of the largest number of sixty-four bits.
pub open spec fn largest_digits() -> Seq<char> {
    seq![
        '1', '8', '4', '4', '6', '7', '4', '4', '0', '7', '3', '7', '0', '9', '5', '5', '1', '6', '1', '5',
    ]
}

/// The digits of `src` begin, after their leading zeros, with those of the
/// largest number of sixty-four bits, and a digit of five or more follows.
/// Only on such an input does the parser, rounding up, add one to the
/// largest number.
pub open spec fn rounds_past_largest(src: Seq<char>) -> bool {
    let digits = significant(src);
    digits.len() > 20 && digits.take(20) == largest_digits() && digits[20] >= '5'
}

/// The parser reads `src` without overflow in its own arithmetic.
pub open spec fn readable(src: Seq<char>) -> bool {
    !rounds_past_largest(src) && digit_count(src) <= MAX_DIGITS
}

/// The first twenty-one of the digits, or all of them if there are fewer.
pub open spec fn leading(digits: Seq<char>) -> Seq<char> {
    if digits.len() > 21 {
        digits.take(21)
    } else {
        digits
    }
}

/// What `parse_size::parse_size` makes of `src`.
pub uninterp spec fn parsed_size(src: Seq<char>) -> Result<u64, SizeError>;

/// Whether `c` has the Unicode property `Alphabetic`, as
/// `char::is_alphabetic` reports it.
pub uninterp spec fn is_alphabetic(c: char) -> bool;

/// Calls `parse_size::parse_size`. Trusted: states that the outcome is a
/// function of the input alone. Left out are the inputs on which the
/// parser's arithmetic overflows: those whose digits round past the
/// largest number, and those of more digits than thirty-two bits count.
#[verifier::external_body]
fn parse_bytes(src: &str) -> (r: Result<u64, SizeError>)
    requires
        readable(src@),
    ensures
        r == parsed_size(src@),
{
    match parse_size::parse_size(src) {
        Ok(n) => Ok(n),
        Err(parse_size::Error::Empty) => Err(SizeError::Empty),
        Err(parse_size::Error::InvalidDigit) => Err(SizeError::InvalidDigit),
        Err(parse_size::Error::PosOverflow) => Err(SizeError::PosOverflow),
        Err(_) => Err(SizeError::Other),
    }
}

/// Calls `char::is_alphabetic`. Trusted: states that the answer is a
/// function of the character alone.
#[verifier::external_body]
fn char_is_alphabetic(c: char) -> (b: bool)
    ensures
        b == is_alphabetic(c),
{
    c.is_alphabetic()
}

/// Some character of `src` is a letter, so that `src` names its unit.
pub open spec fn has_unit(src: Seq<char>) -> bool {
    exists|i: int| 0 <= i < src.len() && is_alphabetic(#[trigger] src[i])
}

/// The size that `src` is read as: a number without unit counts
/// gibibytes.
pub open spec fn size_with_default_unit(src: Seq<char>) -> Seq<char> {
    if has_unit(src) {
        src
    } else {
        src + "GiB"@
    }
}

/// Whether the digits kept begin with those of the largest number of
/// sixty-four bits and go on with a digit of five or more.
fn past_largest(lead: &Vec<char>) -> (b: bool)
    ensures
        b == (lead@.len() > 20 && lead@.take(20) == largest_digits() && lead@[20] >= '5'),
{
    if lead.len() <= 20 {
        return false;
    }
    let largest = chars_of("18446744073709551615");
    proof {
        reveal_strlit("18446744073709551615");
        assert(largest@ =~= largest_digits());
    }
    let mut i: usize = 0;
    while i < 20
        invariant
            i <= 20,
            lead@.len() > 20,
            largest@ == largest_digits(),
            forall|j: int| 0 <= j < i ==> lead@[j] == largest_digits()[j],
        decreases 20 - i,
    {
        if lead[i] != largest[i] {
            assert(lead@.take(20)[i as int] != largest_digits()[i as int]);
            return false;
        }
        i += 1;
    }
    assert(lead@.take(20) =~= largest_digits());
    lead[20] >= '5'
}

/// Reads a size such as `4GiB` or `500M`; a bare number counts gibibytes.
/// A size on whose digits the parser's arithmetic overflows is not read.
pub fn parse_size_default_to_gb(src: &str) -> (r: Result<u64, SizeError>)
    ensures
        r == if readable(src@) {
            parsed_size(size_with_default_unit(src@))
        } else {
            Err::<u64, SizeError>(SizeError::TooManyDigits)
        },
{
    let chars = chars_of(src);
    let mut unit = false;
    let mut digits: usize = 0;
    let mut lead: Vec<char> = Vec::new();
    let mut i: usize = 0;
    assert(src@.take(0) =~= Seq::<char>::empty());
    while i < chars.len()
        invariant
            i <= chars@.len(),
            chars@ == src@,
            digits <= i,
            digits == digit_count(src@.take(i as int)),
            lead@ == leading(significant(src@.take(i as int))),
            unit <==> has_unit(src@.take(i as int)),
        decreases chars@.len() - i,
    {
        let c = chars[i];
        proof {
            let before = src@.take(i as int);
            let after = src@.take(i + 1);
            assert(after.drop_last() =~= before);
            assert(after.last() == c);
            if has_unit(before) {
                let j = choose|j: int| 0 <= j < before.len() && is_alphabetic(#[trigger] before[j]);
                assert(is_alphabetic(after[j]));
            }
            if has_unit(after) && !is_alphabetic(c) {
                let j = choose|j: int| 0 <= j < after.len() && is_alphabetic(#[trigger] after[j]);
                assert(is_alphabetic(before[j]));
            }
            if is_alphabetic(c) {
                assert(is_alphabetic(after[i as int]));
            }
        }
        if char_is_alphabetic(c) {
            unit = true;
        }
        if '0' <= c && c <= '9' {
            digits += 1;
            if lead.len() < 21 && !(lead.len() == 0 && c == '0') {
                let ghost held = significant(src@.take(i as int));
                lead.push(c);
                assert(lead@ =~= leading(held.push(c)));
            } else {
                let ghost held = significant(src@.take(i as int));
                assert(lead@ =~= leading(significant(src@.take(i + 1))));
            }
        }
        i += 1;
    }
    assert(src@.take(chars@.len() as int) =~= src@);
    let past = past_largest(&lead);
    proof {
        let all = significant(src@);
        if all.len() > 21 {
            assert(all.take(21).take(20) =~= all.take(20));
        }
        assert(past == rounds_past_largest(src@));
    }
    if past || digits > MAX_DIGITS {
        return Err(SizeError::TooManyDigits);
    }
    if unit {
        parse_bytes(src)
    } else {
        let with_unit = String::from_str(src).concat("GiB");
        proof {
            lemma_unit_brings_no_digit(src@);
        }
        parse_bytes(with_unit.as_str())
    }
}

/// The unit that is added to a bare number brings no digit.
pub proof fn lemma_unit_brings_no_digit(src: Seq<char>)
    ensures
        digit_count(src + "GiB"@) == digit_count(src),
        significant(src + "GiB"@) == significant(src),
        readable(src + "GiB"@) == readable(src),
{
    reveal_strlit("GiB");
    assert("GiB"@ =~= seq!['G', 'i', 'B']);
    let a = src + seq!['G'];
    let b = a + seq!['i'];
    let c = b + seq!['B'];
    assert(a.drop_last() =~= src);
    assert(b.drop_last() =~= a);
    assert(c.drop_last() =~= b);
    assert(a.last() == 'G' && b.last() == 'i' && c.last() == 'B');
    assert(digit_count(a) == digit_count(src));
    assert(digit_count(b) == digit_count(a));
    assert(digit_count(c) == digit_count(b));
    assert(significant(a) == significant(src));
    assert(significant(b) == significant(a));
    assert(significant(c) == significant(b));
    assert(c =~= src + "GiB"@);
}

/// The order that `SliceRandom::shuffle` gives `paths` under the standard
/// generator of `rand` seeded with `seed`.
pub uninterp spec fn shuffled(seed: u64, paths: Seq<Seq<char>>) -> Seq<Seq<char>>;

/// Calls `StdRng::seed_from_u64` and `SliceRandom::shuffle`. Trusted:
/// states that the new order is a function of the seed and of the paths,
/// and that it holds the same paths, each as often as before.
#[verifier::external_body]
fn shuffle_seeded(seed: u64, paths: &mut Vec<String>)
    ensures
        final(paths).deep_view() == shuffled(seed, old(paths).deep_view()),
        final(paths).deep_view().to_multiset() == old(paths).deep_view().to_multiset(),
{
    paths.shuffle(&mut StdRng::seed_from_u64(seed));
}

/// Calls `StdRng::from_entropy` and `SliceRandom::shuffle`. Trusted:
/// states only that the new order holds the same paths, each as often as
/// before; the order is drawn at random.
#[verifier::external_body]
fn shuffle_from_entropy(paths: &mut Vec<String>)
    ensures
        final(paths).deep_view().to_multiset() == old(paths).deep_view().to_multiset(),
{
    paths.shuffle(&mut StdRng::from_entropy());
}

/// Puts the paths in a random order, so that files that take long do not
/// all come last: the order that the seed gives, or one drawn from the
/// system's entropy where there is no seed.
pub fn shuffle_paths(paths: &mut Vec<String>, seed: Option<u64>)
    ensures
        final(paths).deep_view().to_multiset() == old(paths).deep_view().to_multiset(),
        seed matches Some(s) ==> final(paths).deep_view() == shuffled(s, old(paths).deep_view()),
{
    match seed {
        Some(s) => shuffle_seeded(s, paths),
        None => shuffle_from_entropy(paths),
    }
}

/// The pattern that finds every name under the directory `dir`, at any
/// depth; of the names found, those that mark input are kept.
pub fn glob_pattern(dir: &str) -> (pattern: String)
    ensures
        pattern@ == dir@ + "/**/*"@,
{
    String::from_str(dir).concat("/**/*")
}

/// Of the names, those that mark input: they end in `.json.gz`,
/// `.jsonl.gz` or `.jsonl.zstd`.
pub open spec fn data_files(names: Seq<Seq<char>>) -> Seq<Seq<char>>
    decreases names.len(),
{
    if names.len() == 0 {
        names
    } else if data_key(names.last()) {
        data_files(names.drop_last()).push(names.last())
    } else {
        data_files(names.drop_last())
    }
}

/// The words of the error for a directory that holds no input.
pub open spec fn no_files_found(path: Seq<char>) -> Seq<char> {
    "No JSON Gz files found in '"@ + path + "'"@
}

/// The paths that stand for `path`: where it is a directory, those of the
/// names found under it that mark input, of which there must be one at
/// least; else the path itself.
pub fn expanded(path: &str, found: Option<Vec<String>>) -> (r: Result<Vec<String>, String>)
    ensures
        match found {
            None => r matches Ok(paths) && paths.deep_view() == seq![path@],
            Some(names) => if data_files(names.deep_view()).len() == 0 {
                r matches Err(text) && text@ == no_files_found(path@)
            } else {
                r matches Ok(paths) && paths.deep_view() == data_files(names.deep_view())
            },
        },
{
    match found {
        None => {
            let mut paths: Vec<String> = Vec::new();
            paths.push(String::from_str(path));
            assert(paths.deep_view() =~= seq![path@]);
            Ok(paths)
        },
        Some(names) => {
            let ghost all = names.deep_view();
            let mut kept: Vec<String> = Vec::new();
            assert(all.take(0) =~= Seq::<Seq<char>>::empty());
            assert(kept.deep_view() =~= data_files(all.take(0)));
            for name in it: names
                invariant
                    it.seq() == names@,
                    all == names.deep_view(),
                    kept.deep_view() == data_files(all.take(it.index() as int)),
            {
                let ghost before = kept.deep_view();
                proof {
                    assert(all.take(it.index() + 1).drop_last() =~= all.take(it.index() as int));
                    assert(all.take(it.index() + 1).last() == name@);
                }
                if is_data_key(name.as_str()) {
                    kept.push(name);
                    assert(kept.deep_view() =~= before.push(name@));
                }
            }
            assert(all.take(all.len() as int) =~= all);
            if kept.len() == 0 {
                Err(String::from_str("No JSON Gz files found in '").concat(path).concat("'"))
            } else {
                Ok(kept)
            }
        },
    }
}

/// No n-gram is read where no record is.
pub proof fn lemma_nothing_read(files: Seq<Seq<Record>>, n: nat)
    ensures
        corpus_keys(files, n, Some(0usize)) == Seq::<NgramKey>::empty(),
    decreases files.len(),
{
    if files.len() > 0 {
        lemma_nothing_read(files.drop_last(), n);
        assert(limited(files.last(), Some(0usize)) =~= Seq::<Record>::empty());
        assert(corpus_keys(files, n, Some(0usize)) =~= Seq::<NgramKey>::empty());
    }
}

/// No n-gram is read where no record has a text.
pub proof fn lemma_no_text_no_keys(records: Seq<Record>, n: nat)
    requires
        forall|r: int| 0 <= r < records.len() ==> records[r] is None,
    ensures
        file_keys(records, n) == Seq::<NgramKey>::empty(),
    decreases records.len(),
{
    if records.len() > 0 {
        lemma_no_text_no_keys(records.drop_last(), n);
        assert(file_keys(records, n) =~= Seq::<NgramKey>::empty());
    }
}

} // verus!
