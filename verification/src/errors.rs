use vstd::prelude::*;

verus! {

/// The error kinds surfaced by scanning, comparing and loading snapshots.
#[derive(Clone, Copy, Debug, PartialEq, Eq, Structural)]
pub enum TreeError {
    /// A scanned entry is neither a regular file nor a directory.
    UnsupportedEntry,
    /// Reading or enumerating an entry failed (reported by the caller that
    /// performs the I/O; the library itself never constructs it).
    IoFailure,
    /// The exclusion pattern does not compile as a regular expression.
    InvalidExcludePattern,
    /// The bytes handed to the decoder were not produced by the encoder.
    CorruptSnapshot,
}

} // verus!
