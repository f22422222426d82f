//! The failures that the codec reports to its callers.

use vstd::prelude::*;

verus! {

/// Why a record could not be decoded, encoded or read.
#[derive(Debug, PartialEq, Eq, Clone, Copy, Structural)]
pub enum MarcError {
    /// The bytes do not have the layout of a record: the directory has no
    /// end marker or is not made of whole entries, an entry points outside
    /// of the field data, or a leader declares less than its own length.
    Malformed,
    /// Well-formed input of a kind that has no decoder or encoder here.
    NotImplemented,
    /// A block did not hold a single whole record.
    NoProgress,
    /// A number does not fit the fixed-width field that has to hold it.
    FieldOverflow,
}

} // verus!
