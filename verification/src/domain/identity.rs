//! Identity types: [`FilePath`] (a source file's path, held as its
//! text) and [`Fingerprint`] (an opaque 64-bit hash).
use vstd::prelude::*;

use std::path::{Path, PathBuf};

use crate::text::{hex_digits, push_hex};

verus! {

/// `std::path::Path`, carried through as an opaque value.
#[verifier::external_type_specification]
#[verifier::external_body]
pub struct ExPath(Path);

/// `std::path::PathBuf`, carried through as an opaque value.
#[verifier::external_type_specification]
#[verifier::external_body]
pub struct ExPathBuf(PathBuf);

/// The text that `Path::to_string_lossy` gives of a path: the path itself
/// for a path that is valid UTF-8, with invalid sequences replaced by
/// U+FFFD otherwise.
pub uninterp spec fn path_lossy_text(p: &Path) -> Seq<char>;

/// The text of a path (`Path::to_string_lossy`): claimed to be
/// [`path_lossy_text`] of the path.
#[verifier::external_body]
fn path_text(p: &Path) -> (r: String)
    ensures
        r@ == path_lossy_text(p),
{
    p.to_string_lossy().into_owned()
}

/// The text that `Path::to_string_lossy` gives of an owned path (through
/// `PathBuf`'s dereference to `Path`), as [`path_lossy_text`] does of a
/// borrowed one.
pub uninterp spec fn path_buf_lossy_text(p: PathBuf) -> Seq<char>;

/// The text of an owned path (`Path::to_string_lossy`): claimed to be
/// [`path_buf_lossy_text`] of the path.
#[verifier::external_body]
fn path_buf_text(p: PathBuf) -> (r: String)
    ensures
        r@ == path_buf_lossy_text(p),
{
    p.to_string_lossy().into_owned()
}

/// The path `Path::new` makes of a text: the text itself, wrapped as a
/// path with no conversion.
pub uninterp spec fn path_of_text(s: Seq<char>) -> &'static Path;

/// A path borrowed from a string slice (`Path::new`), with no
/// conversion: claimed to be [`path_of_text`] of the slice's text, and to
/// read back, through `Path::to_string_lossy`, as that text (a `str` is
/// valid UTF-8, so nothing is replaced).
#[verifier::external_body]
fn path_of_str(s: &str) -> (r: &Path)
    ensures
        r == path_of_text(s@),
        path_lossy_text(r) == s@,
{
    Path::new(s)
}

/// A source file path, held as its text.
#[derive(Debug, PartialEq, Eq, PartialOrd, Ord, Hash)]
pub struct FilePath(String);

impl View for FilePath {
    type V = Seq<char>;

    closed spec fn view(&self) -> Seq<char> {
        self.0@
    }
}

impl FilePath {
    /// A path from its text.
    pub fn new(path: &str) -> (r: Self)
        ensures
            r@ == path@,
    {
        FilePath(path.to_owned())
    }

    /// The path, borrowed as a `Path`: `Path::new` of the path's text,
    /// which reads back as that text.
    pub fn as_path(&self) -> (r: &Path)
        ensures
            r == path_of_text(self@),
            path_lossy_text(r) == self@,
    {
        path_of_str(self.0.as_str())
    }

    /// The path's text (what `Display` renders).
    pub fn to_string(&self) -> (r: String)
        ensures
            r@ == self@,
    {
        self.0.clone()
    }

    /// The path's text, borrowed.
    pub fn as_str(&self) -> (r: &str)
        ensures
            r@ == self@,
    {
        self.0.as_str()
    }
}

impl Clone for FilePath {
    fn clone(&self) -> (r: Self)
        ensures
            r@ == self@,
    {
        FilePath(self.0.clone())
    }
}

impl AsRef<Path> for FilePath {
    fn as_ref(&self) -> (r: &Path)
        ensures
            r == path_of_text(self@),
            path_lossy_text(r) == self@,
    {
        self.as_path()
    }
}

impl From<PathBuf> for FilePath {
    fn from(value: PathBuf) -> (r: Self)
        ensures
            r@ == path_buf_lossy_text(value),
    {
        FilePath(path_buf_text(value))
    }
}

impl vstd::std_specs::convert::FromSpecImpl<PathBuf> for FilePath {
    open spec fn obeys_from_spec() -> bool {
        false
    }

    open spec fn from_spec(v: PathBuf) -> FilePath {
        arbitrary()
    }
}

impl<'a> From<&'a Path> for FilePath {
    fn from(value: &'a Path) -> (r: Self)
        ensures
            r@ == path_lossy_text(value),
    {
        FilePath(path_text(value))
    }
}

impl<'a> vstd::std_specs::convert::FromSpecImpl<&'a Path> for FilePath {
    open spec fn obeys_from_spec() -> bool {
        false
    }

    open spec fn from_spec(v: &'a Path) -> FilePath {
        arbitrary()
    }
}

/// An opaque 64-bit structural hash.
#[derive(Debug, Clone, Copy, PartialEq, Eq, Structural, PartialOrd, Ord, Hash)]
pub struct Fingerprint(u64);

impl Fingerprint {
    /// The wrapped value.
    pub closed spec fn spec_value(self) -> u64 {
        self.0
    }

    /// A fingerprint from its value.
    pub fn new(value: u64) -> (r: Self)
        ensures
            r.spec_value() == value,
    {
        Fingerprint(value)
    }

    /// The wrapped value.
    pub fn value(self) -> (r: u64)
        ensures
            r == self.spec_value(),
    {
        self.0
    }

    /// Sixteen lower-case hexadecimal digits, zero-padded (what
    /// `Display` renders).
    pub fn to_string(&self) -> (r: String)
        ensures
            r@ == hex_digits(self.spec_value() as nat, 16),
    {
        let mut out = String::new();
        push_hex(&mut out, self.0, 16);
        assert(out@ =~= hex_digits(self.0 as nat, 16));
        out
    }
}

impl From<u64> for Fingerprint {
    fn from(value: u64) -> (r: Self) {
        Fingerprint(value)
    }
}

impl vstd::std_specs::convert::FromSpecImpl<u64> for Fingerprint {
    open spec fn obeys_from_spec() -> bool {
        true
    }

    closed spec fn from_spec(v: u64) -> Fingerprint {
        Fingerprint(v)
    }
}

} // verus!
