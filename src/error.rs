//! The kinds of failure the store reports.
use vstd::prelude::*;

verus! {

/// What went wrong.
#[derive(Clone, Copy, Debug, PartialEq, Eq, Structural)]
pub enum Error {
    /// The underlying filesystem or directory failed.
    Io,
    /// A log record is malformed or a locator points outside its log.
    Corrupt,
    /// The key has no mapping.
    KeyNotFound,
    /// The directory was set up for another engine.
    EngineMismatch,
}

} // verus!
