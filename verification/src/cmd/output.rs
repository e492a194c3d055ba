//! Where a task writes its output: the name that is made up for the
//! output of a ranked task, and the choice between that name and the one
//! given.

use vstd::prelude::*;
use vstd::string::StringExecFns;
use crate::io::{extension_of, path_extension};
use crate::text::{decimal, decimal_string};

verus! {

/// Why no output file can be had.
#[derive(Clone, Copy, Debug, PartialEq, Eq, Structural)]
pub enum OutputError {
    /// The output path names a directory where a file is needed.
    IsDirectory,
}

impl OutputError {
    /// The words that tell the user what is wrong.
    pub fn message(&self) -> (m: String)
        ensures
            m@ == "-o/--out must be a valid file name, not a directory"@,
    {
        String::from_str("-o/--out must be a valid file name, not a directory")
    }
}

/// The part of a made-up name that gives the limit, if there is one.
pub open spec fn limit_part(limit: Option<usize>) -> Seq<char> {
    match limit {
        Some(l) => "-limit"@ + decimal(l as nat),
        None => Seq::empty(),
    }
}

/// The part of a made-up name that gives the seed, if there is one.
pub open spec fn seed_part(seed: Option<u64>) -> Seq<char> {
    match seed {
        Some(s) => "-seed"@ + decimal(s as nat),
        None => Seq::empty(),
    }
}

/// The name made up for the output of a ranked task: the n-gram length,
/// the number of n-grams asked for and the number of hash functions, then
/// the limit and the seed where they were given.
pub open spec fn made_up_name(
    ngram: usize,
    k: usize,
    hashes: u8,
    limit: Option<usize>,
    seed: Option<u64>,
) -> Seq<char> {
    "n"@ + decimal(ngram as nat) + "-k"@ + decimal(k as nat) + "-h"@ + decimal(hashes as nat)
        + limit_part(limit) + seed_part(seed) + ".jsonl"@
}

/// The name made up for the output of a ranked task.
pub fn output_name(ngram: usize, k: usize, hashes: u8, limit: Option<usize>, seed: Option<u64>) -> (name:
    String)
    ensures
        name@ == made_up_name(ngram, k, hashes, limit, seed),
{
    let mut name = String::from_str("n");
    name.append(decimal_string(ngram as u64).as_str());
    name.append("-k");
    name.append(decimal_string(k as u64).as_str());
    name.append("-h");
    name.append(decimal_string(hashes as u64).as_str());
    if let Some(l) = limit {
        name.append("-limit");
        name.append(decimal_string(l as u64).as_str());
    }
    proof {
        assert(name@ =~= "n"@ + decimal(ngram as nat) + "-k"@ + decimal(k as nat) + "-h"@ + decimal(
            hashes as nat,
        ) + limit_part(limit));
    }
    if let Some(s) = seed {
        name.append("-seed");
        name.append(decimal_string(s).as_str());
    }
    proof {
        assert(name@ =~= "n"@ + decimal(ngram as nat) + "-k"@ + decimal(k as nat) + "-h"@ + decimal(
            hashes as nat,
        ) + limit_part(limit) + seed_part(seed));
    }
    name.append(".jsonl");
    name
}

/// Whether the output of a ranked task goes to a made-up name under the
/// path given: when the path is a directory, or has no extension.
pub fn wants_made_up_name(path: &str, is_dir: bool) -> (b: bool)
    ensures
        b == (is_dir || extension_of(path@) is None),
{
    is_dir || path_extension(path).is_none()
}

/// The output of a task that writes one file: the path given, if any,
/// which must not be a directory.
pub fn single_output(is_dir: Option<bool>) -> (r: Result<bool, OutputError>)
    ensures
        r == match is_dir {
            Some(true) => Err::<bool, OutputError>(OutputError::IsDirectory),
            Some(false) => Ok(true),
            None => Ok(false),
        },
{
    match is_dir {
        Some(true) => Err(OutputError::IsDirectory),
        Some(false) => Ok(true),
        None => Ok(false),
    }
}

} // verus!
