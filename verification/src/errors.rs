//! The single error type that build and acquisition steps propagate.

use crate::model::Label;
use crate::paths::FilePath;
use vstd::prelude::*;

verus! {

/// Every failure a build can propagate. The engine never retries: each of
/// these aborts the affected build request.
#[derive(Debug)]
pub enum BuildError {
    /// A label referenced as a dependency or toolchain is not registered.
    Resolution { label: Label },
    /// The dependency closure walk found a label reachable from itself;
    /// `labels` are the unresolved rules among which the cycle lies.
    Cycle { labels: Vec<Label> },
    /// A file copy, read, or directory-creation failure on `path`.
    Io { path: FilePath },
    /// A downloaded archive's digest does not match its declared value.
    ChecksumMismatch,
    /// A fetch, extract, or compile tool exited non-zero.
    Subprocess { output: String },
}

} // verus!
