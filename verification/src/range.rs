//! Ranges of char indices.

use vstd::prelude::*;

verus! {

/// One end of a range of char indices.
#[derive(Debug, Clone, Copy, PartialEq, Eq, Structural)]
pub enum CharBound {
    /// The range reaches up to this index, and holds it.
    Included(usize),
    /// The range reaches up to this index, and does not hold it.
    Excluded(usize),
    /// The range has no end on this side.
    Unbounded,
}

/// The first char index of a range that starts at `start`, in a text of
/// `len` chars: never more than `len`.
pub open spec fn span_start(start: CharBound, len: nat) -> nat {
    let first: nat = match start {
        CharBound::Included(i) => i as nat,
        CharBound::Excluded(i) => (i + 1) as nat,
        CharBound::Unbounded => 0,
    };
    if first <= len {
        first
    } else {
        len
    }
}

/// The char index after the last one of a range that ends at `end`, in a
/// text of `len` chars: never more than `len`.
pub open spec fn span_end(end: CharBound, len: nat) -> nat {
    let after: nat = match end {
        CharBound::Included(i) => (i + 1) as nat,
        CharBound::Excluded(i) => i as nat,
        CharBound::Unbounded => len,
    };
    if after <= len {
        after
    } else {
        len
    }
}

/// The bound at which `range` starts.
///
/// Calls `start_bound` of `std::ops::RangeBounds`. Nothing is claimed of
/// the result: what a range gives as its start is up to its type.
#[verifier::external_body]
pub(crate) fn range_start<R: std::ops::RangeBounds<usize>>(range: &R) -> (start: CharBound) {
    match range.start_bound() {
        std::ops::Bound::Included(&i) => CharBound::Included(i),
        std::ops::Bound::Excluded(&i) => CharBound::Excluded(i),
        std::ops::Bound::Unbounded => CharBound::Unbounded,
    }
}

/// The bound at which `range` ends.
///
/// Calls `end_bound` of `std::ops::RangeBounds`. Nothing is claimed of the
/// result: what a range gives as its end is up to its type.
#[verifier::external_body]
pub(crate) fn range_end<R: std::ops::RangeBounds<usize>>(range: &R) -> (end: CharBound) {
    match range.end_bound() {
        std::ops::Bound::Included(&i) => CharBound::Included(i),
        std::ops::Bound::Excluded(&i) => CharBound::Excluded(i),
        std::ops::Bound::Unbounded => CharBound::Unbounded,
    }
}

} // verus!
