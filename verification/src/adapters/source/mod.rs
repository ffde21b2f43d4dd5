//! Source enumeration vocabulary: what a walk found
//! ([`SourceOutcome`]), what it could not read ([`SourceWarning`]), why
//! it could not start ([`SourceError`]), and which files it keeps
//! ([`extension_is_allowed`]).
use vstd::prelude::*;

use std::path::PathBuf;

use crate::domain::FilePath;

pub mod crate_id;

verus! {

/// What a walk found: the source files, sorted, and the entries it
/// could not read.
#[derive(Debug, PartialEq, Eq)]
pub struct SourceOutcome {
    /// The source files found.
    pub files: Vec<FilePath>,
    /// The entries that could not be read.
    pub warnings: Vec<SourceWarning>,
}

/// A recoverable problem met during a walk.
#[derive(Debug, PartialEq, Eq)]
#[non_exhaustive]
pub enum SourceWarning {
    /// An entry could not be read.
    Unreadable {
        /// The entry's path (empty when the walker reported none).
        path: PathBuf,
        /// The walker's message.
        message: String,
    },
}

/// Why a walk could not start.
#[derive(Debug, Clone, Copy, PartialEq, Eq, Structural)]
#[non_exhaustive]
pub enum SourceError {
    /// No root was configured.
    NoRoots,
}

impl SourceError {
    /// The error's message.
    pub fn to_string(&self) -> (r: String)
        ensures
            r@ == "no roots configured for enumeration"@,
    {
        "no roots configured for enumeration".to_owned()
    }
}

/// Whether a file with extension `extension` (without the dot; `None`
/// when the file has none) is kept under the allowlist `allowed`: an
/// empty allowlist keeps every file, otherwise the extension must be
/// listed.
pub fn extension_is_allowed(extension: Option<&str>, allowed: &[String]) -> (r: bool)
    ensures
        r == (allowed@.len() == 0 || match extension {
            Some(e) => exists|k: int| 0 <= k < allowed@.len() && (#[trigger] allowed@[k])@ == e@,
            None => false,
        }),
{
    if allowed.len() == 0 {
        return true;
    }
    match extension {
        None => false,
        Some(ext) => {
            let mut k: usize = 0;
            while k < allowed.len()
                invariant
                    k <= allowed@.len(),
                    extension == Some(ext),
                    allowed@.len() > 0,
                    forall|q: int| 0 <= q < k ==> (#[trigger] allowed@[q])@ != ext@,
                decreases allowed@.len() - k,
            {
                if str_eq(allowed[k].as_str(), ext) {
                    assert(allowed@[k as int]@ == ext@);
                    return true;
                }
                k = k + 1;
            }
            false
        },
    }
}

/// Whether two string slices hold the same characters.
fn str_eq(a: &str, b: &str) -> (r: bool)
    ensures
        r == (a@ == b@),
{
    let n = a.unicode_len();
    if n != b.unicode_len() {
        return false;
    }
    let mut i: usize = 0;
    while i < n
        invariant
            i <= n,
            n == a@.len(),
            n == b@.len(),
            forall|j: int| 0 <= j < i ==> a@[j] == b@[j],
        decreases n - i,
    {
        if a.get_char(i) != b.get_char(i) {
            return false;
        }
        i = i + 1;
    }
    assert(a@ =~= b@);
    true
}

} // verus!
