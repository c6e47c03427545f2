//! A part of the text of a table, between two places.

use vstd::prelude::*;
use vstd::string::*;
use vstd::utf8::*;
use crate::encoding::{boundary, slice_str};
use crate::table::{piece_ok, PieceTable};

verus! {

/// The parts that hold a char, in order.
pub open spec fn kept(parts: Seq<Seq<char>>) -> Seq<Seq<char>>
    decreases parts.len(),
{
    if parts.len() == 0 {
        seq![]
    } else if parts.last().len() > 0 {
        kept(parts.drop_last()).push(parts.last())
    } else {
        kept(parts.drop_last())
    }
}

/// A part of the text of a table, from a place in one piece up to a place
/// in the same piece or in a later one.
#[derive(Debug)]
pub struct Slice<'a> {
    /// The piece in which the slice starts and the byte index in it,
    /// inclusive.
    pub(crate) start: (usize, usize),
    /// The piece in which the slice ends and the byte index in it,
    /// exclusive.
    pub(crate) end: (usize, usize),
    pub(crate) table: &'a PieceTable<'a>,
}

impl<'b> PieceTable<'b> {
    /// `place` is a piece of the table and a char boundary in it.
    pub open(crate) spec fn place_ok(&self, place: (usize, usize)) -> bool {
        let p = self.pieces@[place.0 as int];
        &&& place.0 < self.pieces@.len()
        &&& place.1 <= p.len_bytes
        &&& boundary(self.buffers.bytes(p.buffer), p.start + place.1)
    }

    /// The two places lie in the table, the start not after the end. In a
    /// table without pieces both are `(0, 0)`.
    pub open(crate) spec fn span_ok(&self, start: (usize, usize), end: (usize, usize)) -> bool {
        if self.pieces@.len() == 0 {
            start == (0usize, 0usize) && end == (0usize, 0usize)
        } else {
            &&& self.place_ok(start)
            &&& self.place_ok(end)
            &&& start.0 <= end.0
            &&& start.0 == end.0 ==> start.1 <= end.1
        }
    }

    /// What lies of piece `i` between the two places.
    pub open(crate) spec fn span_part(
        &self,
        start: (usize, usize),
        end: (usize, usize),
        i: int,
    ) -> Seq<char> {
        let p = self.pieces@[i];
        let low = if i == start.0 {
            start.1 as int
        } else {
            0
        };
        let high = if i == end.0 {
            end.1 as int
        } else {
            p.len_bytes as int
        };
        decode_utf8(self.buffers.bytes(p.buffer).subrange(p.start + low, p.start + high))
    }

    /// What lies between the two places of each piece, from the piece of
    /// the start to the piece of the end.
    pub open(crate) spec fn span_parts(&self, start: (usize, usize), end: (usize, usize)) -> Seq<
        Seq<char>,
    > {
        if self.pieces@.len() == 0 {
            seq![]
        } else {
            Seq::new((end.0 - start.0 + 1) as nat, |k: int| self.span_part(start, end, start.0 + k))
        }
    }

    /// The text between the two places.
    pub open(crate) spec fn span_text(&self, start: (usize, usize), end: (usize, usize)) -> Seq<
        char,
    > {
        self.span_parts(start, end).flatten()
    }

    /// The char index in the text of a place.
    pub open(crate) spec fn char_pos(&self, place: (usize, usize)) -> int {
        if self.pieces@.len() == 0 {
            0
        } else {
            let p = self.pieces@[place.0 as int];
            (self.chars_before(place.0 as int) + decode_utf8(
                self.buffers.bytes(p.buffer).subrange(p.start as int, p.start + place.1),
            ).len()) as int
        }
    }
}

impl<'a> View for Slice<'a> {
    type V = Seq<char>;

    /// The text of the slice.
    open(crate) spec fn view(&self) -> Seq<char> {
        self.table.span_text(self.start, self.end)
    }
}

impl<'a> Slice<'a> {
    /// The table is consistent and the slice lies in it.
    pub open(crate) spec fn wf(&self) -> bool {
        self.table.wf() && self.table.span_ok(self.start, self.end)
    }

    /// The table that the slice is a part of.
    pub open(crate) spec fn spec_table(&self) -> &PieceTable<'a> {
        self.table
    }

    /// The place at which the slice starts.
    pub open(crate) spec fn spec_start(&self) -> (usize, usize) {
        self.start
    }

    /// The place before which the slice ends.
    pub open(crate) spec fn spec_end(&self) -> (usize, usize) {
        self.end
    }

    /// What the slice holds of piece `i`.
    pub open(crate) spec fn spec_part(&self, i: int) -> Seq<char> {
        self.table.span_part(self.start, self.end, i)
    }

    /// What the slice holds of each of its pieces, from the one in which it
    /// starts to the one in which it ends.
    pub open(crate) spec fn spec_parts(&self) -> Seq<Seq<char>> {
        self.table.span_parts(self.start, self.end)
    }

    pub(crate) fn new(start: (usize, usize), end: (usize, usize), table: &'a PieceTable<'a>) -> (slice:
        Self)
        ensures
            slice.start == start,
            slice.end == end,
            slice.table == table,
    {
        Slice { start, end, table }
    }

    /// What the slice holds of piece `i`.
    pub(crate) fn part(&self, i: usize) -> (text: &'a str)
        requires
            self.wf(),
            self.table.pieces@.len() > 0,
            self.start.0 <= i <= self.end.0,
        ensures
            text@ == self.spec_part(i as int),
    {
        let piece = self.table.pieces[i];
        assert(piece_ok(&self.table.buffers, piece));
        let low: usize = if i == self.start.0 {
            self.start.1
        } else {
            0
        };
        let high: usize = if i == self.end.0 {
            self.end.1
        } else {
            piece.len_bytes
        };
        slice_str(self.table.buffers.index(piece.buffer), piece.start + low, piece.start + high)
    }

    /// The `&str` chunks of the slice, in order, without those that hold
    /// no char.
    #[verifier::rlimit(40)]
    pub fn iter(&self) -> (parts: Vec<&'a str>)
        requires
            self.wf(),
        ensures
            parts@.len() == kept(self.spec_parts()).len(),
            forall|i: int|
                0 <= i < parts@.len() ==> (#[trigger] parts@[i])@ == kept(self.spec_parts())[i],
    {
        let mut parts: Vec<&'a str> = Vec::new();
        let count: usize = self.table.pieces.len();
        if count == 0 {
            return parts;
        }
        let first: usize = self.start.0;
        let last: usize = self.end.0;
        let mut i: usize = first;
        proof {
            assert(self.spec_parts().subrange(0, 0) =~= Seq::<Seq<char>>::empty());
        }
        while i <= last
            invariant
                self.wf(),
                self.table.pieces@.len() > 0,
                first == self.start.0,
                last == self.end.0,
                last < count,
                first <= i <= last + 1,
                parts@.len() == kept(self.spec_parts().subrange(0, i - first)).len(),
                forall|k: int|
                    0 <= k < parts@.len() ==> (#[trigger] parts@[k])@ == kept(
                        self.spec_parts().subrange(0, i - first),
                    )[k],
            decreases last + 1 - i,
        {
            let text = self.part(i);
            proof {
                let all = self.spec_parts();
                assert(all.subrange(0, i + 1 - first).drop_last() =~= all.subrange(0, i - first));
                assert(all.subrange(0, i + 1 - first).last() == self.spec_part(i as int));
            }
            if !text.is_empty() {
                parts.push(text);
            }
            i = i + 1;
        }
        proof {
            let all = self.spec_parts();
            assert(all.subrange(0, all.len() as int) =~= all);
        }
        parts
    }

    /// The text of the slice as a string.
    #[verifier::rlimit(40)]
    pub fn text(&self) -> (text: String)
        requires
            self.wf(),
        ensures
            text@ == self@,
    {
        let mut text = String::new();
        let count: usize = self.table.pieces.len();
        if count == 0 {
            return text;
        }
        let first: usize = self.start.0;
        let last: usize = self.end.0;
        let mut i: usize = first;
        proof {
            assert(self.spec_parts().subrange(0, 0) =~= Seq::<Seq<char>>::empty());
        }
        while i <= last
            invariant
                self.wf(),
                self.table.pieces@.len() > 0,
                first == self.start.0,
                last == self.end.0,
                last < count,
                first <= i <= last + 1,
                text@ == self.spec_parts().subrange(0, i - first).flatten(),
            decreases last + 1 - i,
        {
            let part = self.part(i);
            proof {
                let all = self.spec_parts();
                assert(all.subrange(0, i + 1 - first) =~= all.subrange(0, i - first).push(
                    self.spec_part(i as int),
                ));
                all.subrange(0, i - first).lemma_flatten_push(self.spec_part(i as int));
            }
            text.append(part);
            i = i + 1;
        }
        proof {
            let all = self.spec_parts();
            assert(all.subrange(0, all.len() as int) =~= all);
        }
        text
    }
}

} // verus!
