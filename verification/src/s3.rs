//! Object-store locations: recognising them, taking them apart, and the
//! timing of repeated fetch attempts.

use vstd::prelude::*;
use vstd::string::{StrSliceExecFns, StringExecFns};
use rand::Rng;
use crate::text::{chars_of, starts_with, ends_with};

verus! {

/// The scheme that marks an object-store location.
pub open spec fn s3_scheme() -> Seq<char> {
    seq!['s', '3', ':', '/', '/']
}

/// What follows the scheme in `path`.
pub open spec fn after_scheme(path: Seq<char>) -> Seq<char> {
    path.subrange(5, path.len() as int)
}

/// The position of the first `/` in `s`, or the length of `s` if it has none.
pub open spec fn first_slash(s: Seq<char>) -> int
    decreases s.len(),
{
    if s.len() == 0 {
        0
    } else if s[0] == '/' {
        0
    } else {
        1 + first_slash(s.drop_first())
    }
}

/// `path` can be split into a bucket and a key: it carries the scheme and a
/// `/` after the bucket name.
pub open spec fn splittable(path: Seq<char>) -> bool {
    starts_with(path, s3_scheme()) && after_scheme(path).contains('/')
}

/// The bucket named by a splittable `path`.
pub open spec fn bucket_of(path: Seq<char>) -> Seq<char> {
    let rest = after_scheme(path);
    rest.subrange(0, first_slash(rest))
}

/// The key named by a splittable `path`.
pub open spec fn key_of(path: Seq<char>) -> Seq<char> {
    let rest = after_scheme(path);
    rest.subrange(first_slash(rest) + 1, rest.len() as int)
}

/// `first_slash` is the least position that holds a `/`.
pub proof fn lemma_first_slash(s: Seq<char>)
    ensures
        0 <= first_slash(s) <= s.len(),
        forall|i: int| 0 <= i < first_slash(s) ==> s[i] != '/',
        first_slash(s) < s.len() ==> s[first_slash(s)] == '/',
        s.contains('/') <==> first_slash(s) < s.len(),
    decreases s.len(),
{
    if s.len() == 0 {
    } else if s[0] == '/' {
    } else {
        let t = s.drop_first();
        lemma_first_slash(t);
        assert forall|i: int| 0 <= i < first_slash(s) implies s[i] != '/' by {
            if i > 0 {
                assert(s[i] == t[i - 1]);
            }
        }
        if first_slash(s) < s.len() {
            assert(s[first_slash(s)] == t[first_slash(t)]);
        }
        if s.contains('/') {
            let j = choose|j: int| 0 <= j < s.len() && s[j] == '/';
            assert(t[j - 1] == '/');
            assert(t.contains('/'));
        }
    }
}

/// Any position known to hold the first `/` is `first_slash`.
pub proof fn lemma_first_slash_is(s: Seq<char>, i: int)
    requires
        0 <= i < s.len(),
        s[i] == '/',
        forall|j: int| 0 <= j < i ==> s[j] != '/',
    ensures
        first_slash(s) == i,
{
    lemma_first_slash(s);
}

/// Whether `path` names an object-store location.
pub fn is_s3(path: &str) -> (b: bool)
    ensures
        b == starts_with(path@, s3_scheme()),
{
    let chars = chars_of(path);
    if chars.len() < 5 {
        return false;
    }
    let b = chars[0] == 's' && chars[1] == '3' && chars[2] == ':' && chars[3] == '/'
        && chars[4] == '/';
    proof {
        let p = path@.subrange(0, 5);
        if b {
            assert(p =~= s3_scheme());
        } else {
            assert(p[0] == path@[0] && p[1] == path@[1] && p[2] == path@[2] && p[3] == path@[3]
                && p[4] == path@[4]);
        }
    }
    b
}

/// Splits an object-store location into its bucket and its key: the bucket
/// runs from the scheme to the first `/`, the key is all that follows it.
pub fn split_s3_path(path: &str) -> (parts: (String, String))
    requires
        splittable(path@),
    ensures
        parts.0@ == bucket_of(path@),
        parts.1@ == key_of(path@),
{
    let chars = chars_of(path);
    let n = chars.len();
    let ghost rest = after_scheme(path@);
    proof {
        lemma_first_slash(rest);
    }
    let mut i: usize = 5;
    while i < n && chars[i] != '/'
        invariant
            5 <= i <= n,
            n == path@.len(),
            chars@ == path@,
            rest == after_scheme(path@),
            forall|j: int| 0 <= j < i - 5 ==> rest[j] != '/',
        decreases n - i,
    {
        assert(rest[i - 5] == chars@[i as int]);
        i += 1;
    }
    proof {
        if i == n {
            assert(rest[first_slash(rest)] == '/');
        }
        assert(rest[i - 5] == chars@[i as int]);
        lemma_first_slash_is(rest, i - 5);
    }
    let bucket = path.substring_char(5, i).to_owned();
    let key = path.substring_char(i + 1, n).to_owned();
    proof {
        assert(bucket@ =~= bucket_of(path@));
        assert(key@ =~= key_of(path@));
    }
    (bucket, key)
}

/// Whether `s` ends with `suffix`.
pub fn str_ends_with(s: &str, suffix: &str) -> (b: bool)
    ensures
        b == ends_with(s@, suffix@),
{
    let a = chars_of(s);
    let z = chars_of(suffix);
    if z.len() > a.len() {
        return false;
    }
    let n = a.len();
    let offset = n - z.len();
    let ghost tail = s@.subrange(s@.len() - suffix@.len(), s@.len() as int);
    let mut i: usize = 0;
    while i < z.len()
        invariant
            i <= z@.len(),
            a@ == s@,
            z@ == suffix@,
            n == a@.len(),
            offset + z@.len() == n,
            tail == s@.subrange(s@.len() - suffix@.len(), s@.len() as int),
            forall|j: int| 0 <= j < i ==> tail[j] == suffix@[j],
        decreases z@.len() - i,
    {
        if a[offset + i] != z[i] {
            assert(tail[i as int] != suffix@[i as int]);
            return false;
        }
        i += 1;
    }
    assert(tail =~= suffix@);
    true
}

/// The name of an object marks it as input: it ends in `.jsonl.gz`,
/// `.json.gz` or `.jsonl.zstd`.
pub open spec fn data_key(key: Seq<char>) -> bool {
    ends_with(key, ".jsonl.gz"@) || ends_with(key, ".json.gz"@) || ends_with(key, ".jsonl.zstd"@)
}

/// Whether the name of an object marks it as input.
pub fn is_data_key(key: &str) -> (b: bool)
    ensures
        b == data_key(key@),
{
    str_ends_with(key, ".jsonl.gz") || str_ends_with(key, ".json.gz") || str_ends_with(
        key,
        ".jsonl.zstd",
    )
}

/// Whether `path` is an object-store location that names no input
/// object, and so stands for every input object whose name begins with it.
pub fn is_s3_prefix(path: &str) -> (b: bool)
    ensures
        b == (starts_with(path@, s3_scheme()) && !data_key(path@)),
{
    is_s3(path) && !is_data_key(path)
}

/// The location of the object `key` in `bucket`.
pub fn s3_uri(bucket: &str, key: &str) -> (uri: String)
    ensures
        uri@ == "s3://"@ + bucket@ + "/"@ + key@,
{
    let mut uri = String::from_str("s3://");
    uri.append(bucket);
    uri.append("/");
    uri.append(key);
    uri
}

/// How often a fetch that failed is tried again where nothing else was
/// asked for.
pub const DEFAULT_RETRIES: usize = 5;

/// The first delay between two attempts, in milliseconds.
pub const BASE_DELAY_MS: u64 = 100;

/// The longest delay between two attempts before the random part, in
/// milliseconds.
pub const MAX_DELAY_MS: u64 = 2000;

/// The bound of the random part of a delay, in milliseconds.
pub const JITTER_MS: u64 = 1000;

/// Two to the power `n`.
pub open spec fn pow2(n: nat) -> nat
    decreases n,
{
    if n == 0 {
        1
    } else {
        2 * pow2((n - 1) as nat)
    }
}

/// The delay after `attempts` failed attempts, before the random part:
/// the base delay doubled for each attempt, and no more than the longest
/// delay.
pub open spec fn backoff_ms(attempts: nat) -> u64 {
    if BASE_DELAY_MS * pow2(attempts) > MAX_DELAY_MS {
        MAX_DELAY_MS
    } else {
        (BASE_DELAY_MS * pow2(attempts)) as u64
    }
}

/// Whether a fetch that failed `attempts` times is tried again.
pub fn retries_left(attempts: usize, num_retries: Option<usize>) -> (b: bool)
    ensures
        b == (attempts < match num_retries {
            Some(n) => n,
            None => DEFAULT_RETRIES,
        }),
{
    let allowed = match num_retries {
        Some(n) => n,
        None => DEFAULT_RETRIES,
    };
    attempts < allowed
}

/// The delay after `attempts` failed attempts, before the random part.
pub fn backoff_delay_ms(attempts: usize) -> (ms: u64)
    ensures
        ms == backoff_ms(attempts as nat),
{
    let mut ms: u64 = BASE_DELAY_MS;
    let mut i: usize = 0;
    while i < attempts && ms <= MAX_DELAY_MS
        invariant
            i <= attempts,
            ms <= 2 * MAX_DELAY_MS,
            ms == BASE_DELAY_MS * pow2(i as nat),
        decreases attempts - i,
    {
        assert(pow2((i + 1) as nat) == 2 * pow2(i as nat));
        ms = ms * 2;
        i += 1;
    }
    proof {
        lemma_pow2_grows(i as nat, attempts as nat);
        assert(BASE_DELAY_MS * pow2(i as nat) <= BASE_DELAY_MS * pow2(attempts as nat)) by (nonlinear_arith)
            requires
                pow2(i as nat) <= pow2(attempts as nat),
        ;
    }
    if ms > MAX_DELAY_MS {
        MAX_DELAY_MS
    } else {
        ms
    }
}

/// Powers of two grow with the exponent.
pub proof fn lemma_pow2_grows(a: nat, b: nat)
    requires
        a <= b,
    ensures
        pow2(a) <= pow2(b),
        pow2(a) >= 1,
    decreases b,
{
    if a < b {
        lemma_pow2_grows(a, (b - 1) as nat);
    } else if a > 0 {
        lemma_pow2_grows((a - 1) as nat, (a - 1) as nat);
    }
}

/// Calls `rand::thread_rng` and `Rng::gen_range` for a range from zero.
/// Trusted: states that the number drawn is below the bound.
#[verifier::external_body]
fn random_below(bound: u64) -> (r: u64)
    requires
        bound > 0,
    ensures
        r < bound,
{
    rand::thread_rng().gen_range(0..bound)
}

/// The delay after `attempts` failed attempts: the doubled delay and a
/// random part, so that workers that failed together do not return
/// together.
pub fn retry_delay_ms(attempts: usize) -> (ms: u64)
    ensures
        backoff_ms(attempts as nat) <= ms < backoff_ms(attempts as nat) + JITTER_MS,
{
    backoff_delay_ms(attempts) + random_below(JITTER_MS)
}

} // verus!
