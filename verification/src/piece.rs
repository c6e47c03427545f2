//! A piece: a view into one of the two buffers.

use vstd::prelude::*;
use crate::buffer::BufferType;

verus! {

/// A view into one of the two buffers.
#[derive(Debug, Clone, Copy)]
pub struct Piece {
    /// Which buffer this piece references.
    pub buffer: BufferType,
    /// Start index in the buffer, in bytes.
    pub start: usize,
    /// The index of the first line break of this piece in the buffer's
    /// registry of line breaks, if the piece holds one.
    pub first_line_break: Option<usize>,
    pub len_bytes: usize,
    pub len_chars: usize,
}

impl Piece {
    /// One past the last byte of the piece, as a specification.
    pub open spec fn spec_end(&self) -> int {
        self.start + self.len_bytes
    }

    /// The bytes of the buffer that the piece covers: `(start, end)`, the end
    /// exclusive.
    pub fn byte_range(&self) -> (r: (usize, usize))
        requires
            self.start + self.len_bytes <= usize::MAX,
        ensures
            r.0 == self.start,
            r.1 == self.spec_end(),
    {
        (self.start, self.start + self.len_bytes)
    }
}

} // verus!
