//! The line breaks of a table in the order of its text, and its lines.

use vstd::prelude::*;
use vstd::utf8::*;
use crate::buffer::{entry_ok, lemma_break_bounds, Buffers};
use crate::encoding::boundary;
use crate::line::Break;
use crate::piece::Piece;
use crate::registry::{lemma_within_fits, lemma_within_ordered, nth_within};
use crate::slice::Slice;
use crate::table::{break_total, piece_breaks, piece_ok, within, PieceTable};

verus! {

/// The line breaks that a piece holds, each as the index of the piece,
/// the index of its first byte in the piece, and its kind.
pub open spec fn piece_marks(bufs: &Buffers, p: Piece, idx: int) -> Seq<(usize, usize, Break)> {
    let found = piece_breaks(bufs, p);
    Seq::new(found.len(), |k: int| (idx as usize, (found[k].0 - p.start) as usize, found[k].1))
}

/// The line breaks that the pieces hold, in the order of the text.
pub open spec fn marks(bufs: &Buffers, pieces: Seq<Piece>) -> Seq<(usize, usize, Break)>
    decreases pieces.len(),
{
    if pieces.len() == 0 {
        seq![]
    } else {
        marks(bufs, pieces.drop_last()) + piece_marks(bufs, pieces.last(), pieces.len() - 1)
    }
}

/// A line break lies in its piece, between two char boundaries, on the
/// bytes of its kind.
pub open spec fn mark_ok(bufs: &Buffers, p: Piece, m: (usize, usize, Break)) -> bool {
    &&& m.1 + m.2.spec_len_bytes() <= p.len_bytes
    &&& boundary(bufs.bytes(p.buffer), p.start + m.1)
    &&& boundary(bufs.bytes(p.buffer), p.start + m.1 + m.2.spec_len_bytes())
    &&& bufs.bytes(p.buffer).subrange(p.start + m.1, p.start + m.1 + m.2.spec_len_bytes())
        == m.2.spec_bytes()
}

/// `a` lies before `b` in the text, and does not reach into it.
pub open spec fn mark_before(a: (usize, usize, Break), b: (usize, usize, Break)) -> bool {
    a.0 < b.0 || (a.0 == b.0 && a.1 + a.2.spec_len_bytes() <= b.1)
}

/// The line breaks of a piece lie in the piece between char boundaries,
/// one after another.
#[verifier::rlimit(40)]
pub proof fn lemma_piece_marks(bufs: &Buffers, p: Piece, idx: int)
    requires
        bufs.wf(),
        piece_ok(bufs, p),
        0 <= idx <= usize::MAX,
    ensures
        piece_marks(bufs, p, idx).len() == piece_breaks(bufs, p).len(),
        forall|k: int|
            0 <= k < piece_marks(bufs, p, idx).len() ==> (#[trigger] piece_marks(
                bufs,
                p,
                idx,
            )[k]).0 == idx && mark_ok(bufs, p, piece_marks(bufs, p, idx)[k]),
        forall|j: int, k: int|
            0 <= j < k < piece_marks(bufs, p, idx).len() ==> mark_before(
                #[trigger] piece_marks(bufs, p, idx)[j],
                #[trigger] piece_marks(bufs, p, idx)[k],
            ),
{
    let reg = bufs.registry(p.buffer);
    let bytes = bufs.bytes(p.buffer);
    let found = piece_breaks(bufs, p);
    let all = piece_marks(bufs, p, idx);
    lemma_within_ordered(reg, p.start as int, p.spec_end(), reg.len() as int);
    lemma_within_fits(bytes, reg, p.start as int, p.spec_end(), reg.len() as int);
    encode_utf8_valid_utf8(bufs.chars(p.buffer));
    assert forall|k: int| 0 <= k < all.len() implies (#[trigger] all[k]).0 == idx && mark_ok(
        bufs,
        p,
        all[k],
    ) by {
        let e = found[k];
        assert(entry_ok(bytes, e));
        assert(within(e, p.start as int, p.spec_end()));
        lemma_break_bounds(bytes, e);
        assert(bytes.subrange(e.0 as int, e.0 + e.1.spec_len_bytes()) =~= e.1.spec_bytes());
    }
    assert forall|j: int, k: int| 0 <= j < k < all.len() implies mark_before(
        #[trigger] all[j],
        #[trigger] all[k],
    ) by {
        assert(found[j].0 + found[j].1.spec_len_bytes() <= found[k].0);
        assert(within(found[j], p.start as int, p.spec_end()));
        assert(within(found[k], p.start as int, p.spec_end()));
    }
}

/// The line breaks of a list of pieces: there are as many as the pieces
/// hold, each lies in its piece between char boundaries, and they come in
/// the order of the text.
#[verifier::rlimit(40)]
pub proof fn lemma_marks(bufs: &Buffers, pieces: Seq<Piece>)
    requires
        bufs.wf(),
        pieces.len() <= usize::MAX,
        forall|i: int| 0 <= i < pieces.len() ==> piece_ok(bufs, #[trigger] pieces[i]),
    ensures
        marks(bufs, pieces).len() == break_total(bufs, pieces),
        forall|k: int|
            0 <= k < marks(bufs, pieces).len() ==> (#[trigger] marks(bufs, pieces)[k]).0
                < pieces.len() && mark_ok(
                bufs,
                pieces[marks(bufs, pieces)[k].0 as int],
                marks(bufs, pieces)[k],
            ),
        forall|j: int, k: int|
            0 <= j < k < marks(bufs, pieces).len() ==> mark_before(
                #[trigger] marks(bufs, pieces)[j],
                #[trigger] marks(bufs, pieces)[k],
            ),
    decreases pieces.len(),
{
    if pieces.len() > 0 {
        let front = pieces.drop_last();
        let p = pieces.last();
        let idx = pieces.len() - 1;
        let old = marks(bufs, front);
        let new = piece_marks(bufs, p, idx);
        let all = marks(bufs, pieces);
        assert forall|i: int| 0 <= i < front.len() implies piece_ok(bufs, #[trigger] front[i]) by {
            assert(front[i] == pieces[i]);
        }
        lemma_marks(bufs, front);
        lemma_piece_marks(bufs, p, idx);
        assert forall|k: int| 0 <= k < all.len() implies (#[trigger] all[k]).0 < pieces.len()
            && mark_ok(bufs, pieces[all[k].0 as int], all[k]) by {
            if k < old.len() {
                assert(all[k] == old[k]);
                assert(front[old[k].0 as int] == pieces[old[k].0 as int]);
            } else {
                assert(all[k] == new[k - old.len()]);
            }
        }
        assert forall|j: int, k: int| 0 <= j < k < all.len() implies mark_before(
            #[trigger] all[j],
            #[trigger] all[k],
        ) by {
            if k < old.len() {
                assert(all[j] == old[j] && all[k] == old[k]);
            } else if j < old.len() {
                assert(all[j] == old[j]);
                assert(all[k] == new[k - old.len()]);
            } else {
                assert(all[j] == new[j - old.len()]);
                assert(all[k] == new[k - old.len()]);
            }
        }
    }
}

/// The line breaks of the first `i` pieces come first among the line
/// breaks of all pieces.
pub proof fn lemma_marks_prefix(bufs: &Buffers, pieces: Seq<Piece>, i: int)
    requires
        0 <= i <= pieces.len(),
    ensures
        marks(bufs, pieces.subrange(0, i)).len() <= marks(bufs, pieces).len(),
        forall|k: int|
            0 <= k < marks(bufs, pieces.subrange(0, i)).len() ==> #[trigger] marks(bufs, pieces)[k]
                == marks(bufs, pieces.subrange(0, i))[k],
    decreases pieces.len() - i,
{
    if i == pieces.len() {
        assert(pieces.subrange(0, i) =~= pieces);
    } else {
        lemma_marks_prefix(bufs, pieces, i + 1);
        lemma_marks_step(bufs, pieces, i);
    }
}

/// The line breaks of the first `i + 1` pieces are those of the first `i`
/// and those of piece `i`.
pub proof fn lemma_marks_step(bufs: &Buffers, pieces: Seq<Piece>, i: int)
    requires
        0 <= i < pieces.len(),
    ensures
        marks(bufs, pieces.subrange(0, i + 1)) == marks(bufs, pieces.subrange(0, i)) + piece_marks(
            bufs,
            pieces[i],
            i,
        ),
{
    let upto = pieces.subrange(0, i + 1);
    assert(upto.drop_last() =~= pieces.subrange(0, i));
    assert(upto.last() == pieces[i]);
}

impl<'b> PieceTable<'b> {
    /// The line breaks of the table, in the order of the text: for each the
    /// index of the piece that holds it, the index of its first byte in
    /// that piece, and its kind.
    pub open(crate) spec fn spec_marks(&self) -> Seq<(usize, usize, Break)> {
        marks(&self.buffers, self.pieces@)
    }

    /// The place at which line `line_idx` starts: the start of the text, or
    /// the place after the line break before the line.
    pub open(crate) spec fn line_start(&self, line_idx: int) -> (usize, usize) {
        if line_idx == 0 {
            (0usize, 0usize)
        } else {
            let m = self.spec_marks()[line_idx - 1];
            (m.0, (m.1 + m.2.spec_len_bytes()) as usize)
        }
    }

    /// The place before which line `line_idx` ends: the place of the line
    /// break after the line, or the end of the last piece.
    pub open(crate) spec fn line_end(&self, line_idx: int) -> (usize, usize) {
        if line_idx < self.spec_marks().len() {
            let m = self.spec_marks()[line_idx];
            (m.0, m.1)
        } else if self.pieces@.len() == 0 {
            (0usize, 0usize)
        } else {
            ((self.pieces@.len() - 1) as usize, self.pieces@.last().len_bytes)
        }
    }

    /// The text of line `line_idx`, without its line break.
    pub open(crate) spec fn line_text(&self, line_idx: int) -> Seq<char> {
        self.span_text(self.line_start(line_idx), self.line_end(line_idx))
    }

    /// The char index in the text at which line `line_idx` starts.
    pub open(crate) spec fn line_from(&self, line_idx: int) -> int {
        self.char_pos(self.line_start(line_idx))
    }

    /// The char index in the text before which line `line_idx` ends.
    pub open(crate) spec fn line_to(&self, line_idx: int) -> int {
        self.char_pos(self.line_end(line_idx))
    }

    /// The lines up to line `line_idx`, each but the last with the line
    /// break after it.
    pub open(crate) spec fn joined_lines(&self, line_idx: int) -> Seq<char>
        decreases line_idx,
    {
        if line_idx <= 0 {
            self.line_text(0)
        } else {
            self.joined_lines(line_idx - 1) + self.spec_marks()[line_idx - 1].2.spec_chars()
                + self.line_text(line_idx)
        }
    }

    /// The line break of index `n` in the text, if there are that many.
    #[verifier::rlimit(40)]
    pub fn mark_at(&self, n: usize) -> (found: Option<(usize, usize, Break)>)
        requires
            self.wf(),
        ensures
            found == if n < self.spec_marks().len() {
                Some(self.spec_marks()[n as int])
            } else {
                None
            },
            self.spec_marks().len() + 1 == self.spec_len_lines(),
    {
        let count: usize = self.pieces.len();
        let mut seen: usize = 0;
        let mut i: usize = 0;
        proof {
            lemma_marks(&self.buffers, self.pieces@);
            assert(self.pieces@.subrange(0, 0) =~= Seq::<Piece>::empty());
        }
        while i < count
            invariant
                self.wf(),
                count == self.pieces@.len(),
                0 <= i <= count,
                seen == marks(&self.buffers, self.pieces@.subrange(0, i as int)).len(),
                seen <= n,
            decreases count - i,
        {
            let piece = self.pieces[i];
            let held: usize = self.count_piece_line_breaks(i);
            proof {
                assert(piece_ok(&self.buffers, piece));
                lemma_marks_step(&self.buffers, self.pieces@, i as int);
                lemma_marks_prefix(&self.buffers, self.pieces@, i + 1);
                lemma_marks(&self.buffers, self.pieces@);
                lemma_piece_marks(&self.buffers, piece, i as int);
            }
            if n - seen < held {
                let reg = self.buffers.line_breaks(piece.buffer);
                let j: usize = nth_within(
                    reg,
                    piece.first_line_break,
                    piece.start,
                    piece.start + piece.len_bytes,
                    n - seen,
                );
                let entry: (usize, Break) = reg[j];
                proof {
                    let upto = marks(&self.buffers, self.pieces@.subrange(0, i + 1));
                    let here = piece_marks(&self.buffers, piece, i as int);
                    lemma_within_ordered(
                        reg@,
                        piece.start as int,
                        piece.spec_end(),
                        reg@.len() as int,
                    );
                    assert(within(entry, piece.start as int, piece.spec_end()));
                    assert(upto[n as int] == here[n - seen]);
                    assert(mark_ok(&self.buffers, piece, here[n - seen]));
                }
                return Some((i, entry.0 - piece.start, entry.1));
            }
            seen = seen + held;
            i = i + 1;
        }
        proof {
            assert(self.pieces@.subrange(0, i as int) =~= self.pieces@);
        }
        None
    }

    /// Returns a [`Slice`] containing the `line_idx`-th line, without the
    /// line break sequence.
    #[verifier::rlimit(40)]
    pub fn line(&'b self, line_idx: usize) -> (slice: Slice<'b>)
        requires
            self.wf(),
            line_idx < self.spec_len_lines(),
        ensures
            slice.wf(),
            slice.spec_table() == self,
            slice.spec_start() == self.line_start(line_idx as int),
            slice.spec_end() == self.line_end(line_idx as int),
            slice@ == self.line_text(line_idx as int),
    {
        let count: usize = self.pieces.len();
        proof {
            lemma_marks(&self.buffers, self.pieces@);
        }
        let start: (usize, usize) = if line_idx == 0 {
            (0, 0)
        } else {
            match self.mark_at(line_idx - 1) {
                Some(m) => (m.0, m.1 + m.2.len_bytes()),
                None => (0, 0),
            }
        };
        let end: (usize, usize) = match self.mark_at(line_idx) {
            Some(m) => (m.0, m.1),
            None => {
                if count == 0 {
                    (0, 0)
                } else {
                    (count - 1, self.pieces[count - 1].len_bytes)
                }
            },
        };
        proof {
            let all = self.spec_marks();
            if self.pieces@.len() > 0 {
                assert(piece_ok(&self.buffers, self.pieces@[0]));
                assert(piece_ok(&self.buffers, self.pieces@.last()));
                if line_idx > 0 && line_idx < all.len() {
                    assert(mark_before(all[line_idx - 1], all[line_idx as int]));
                }
            }
        }
        Slice::new(start, end, self)
    }
}

} // verus!
