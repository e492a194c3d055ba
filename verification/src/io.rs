//! Choosing how an input is read, and the line buffer of a reader.

use vstd::prelude::*;
use std::rc::Rc;
use crate::s3::{is_s3, s3_scheme};
use crate::text::{starts_with, string_with_capacity, same_str};

verus! {

/// How the lines of an input are obtained.
#[derive(Clone, Copy, Debug, PartialEq, Eq, Structural)]
pub enum ReaderKind {
    /// The object is fetched whole and read from memory.
    Memory,
    /// A local file in zstd format.
    Zstd,
    /// A local file in gzip format, of one member or several.
    Gzip,
}

/// The extension of `path` as `std::path::Path::extension` reports it, if
/// it has one that is valid Unicode.
pub uninterp spec fn extension_of(path: Seq<char>) -> Option<Seq<char>>;

/// Calls `Path::extension`. Trusted: states that the result is a function
/// of the path alone.
#[verifier::external_body]
pub(crate) fn path_extension(path: &str) -> (ext: Option<String>)
    ensures
        ext.deep_view() == extension_of(path@),
{
    std::path::Path::new(path).extension().and_then(|e| e.to_str()).map(|e| e.to_string())
}

/// The reader that `path` calls for: memory for an object-store location,
/// else zstd for the extension `zstd`, gzip for any other; none for a local
/// path without extension.
pub open spec fn reader_kind_of(path: Seq<char>) -> Option<ReaderKind> {
    if starts_with(path, s3_scheme()) {
        Some(ReaderKind::Memory)
    } else {
        match extension_of(path) {
            None => None,
            Some(ext) => if ext == "zstd"@ {
                Some(ReaderKind::Zstd)
            } else {
                Some(ReaderKind::Gzip)
            },
        }
    }
}

/// Whether the extension of `path` marks zstd format.
pub fn is_zstd(path: &str) -> (b: bool)
    ensures
        b == (extension_of(path@) == Some("zstd"@)),
{
    match path_extension(path) {
        None => false,
        Some(ext) => same_str(ext.as_str(), "zstd"),
    }
}

/// The reader that `path` calls for.
pub fn reader_kind(path: &str) -> (kind: Option<ReaderKind>)
    ensures
        kind == reader_kind_of(path@),
{
    if is_s3(path) {
        return Some(ReaderKind::Memory);
    }
    match path_extension(path) {
        None => None,
        Some(ext) => {
            if same_str(ext.as_str(), "zstd") {
                Some(ReaderKind::Zstd)
            } else {
                Some(ReaderKind::Gzip)
            }
        },
    }
}

/// A fresh line buffer, empty, with room for a line of ordinary length.
pub fn new_buf() -> (buf: Rc<String>)
    ensures
        (*buf)@ == Seq::<char>::empty(),
{
    Rc::new(string_with_capacity(2048))
}

} // verus!
