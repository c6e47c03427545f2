//! The lines that are left when a range of chars goes.

use vstd::prelude::*;
use vstd::utf8::*;
use crate::buffer::{entry_ok, lemma_break_bounds, Buffers};
use crate::encoding::{lemma_chars_grow, lemma_range_split, utf8_len};
use crate::line::Break;
use crate::lines::{lemma_marks_prefix, lemma_marks_step, marks, piece_marks};
use crate::piece::Piece;
use crate::registry::lemma_within_prefix;
use crate::remove::lemma_cut_edges;
use crate::table::{
    break_total, breaks_within, lemma_ahead, lemma_doc_at, lemma_total_concat, lemma_total_one,
    piece_breaks, piece_chars, piece_ok, within, PieceTable,
};

verus! {

/// `x`, or the nearest of 0 and `max`.
pub open spec fn clamp_to(x: int, max: int) -> int {
    if x < 0 {
        0
    } else if x > max {
        max
    } else {
        x
    }
}

/// Where a line break of a piece lies, in chars, against a cut of the
/// piece before its char of index `n`: the break ends at or before the cut
/// in bytes where it does in chars, and starts at or after it likewise.
#[verifier::rlimit(40)]
pub proof fn lemma_entry_vs_cut(bufs: &Buffers, p: Piece, e: (usize, Break), n: int)
    requires
        bufs.wf(),
        piece_ok(bufs, p),
        within(e, p.start as int, p.spec_end()),
        entry_ok(bufs.bytes(p.buffer), e),
        0 <= n <= piece_chars(bufs, p).len(),
    ensures
        ({
            let bytes = bufs.bytes(p.buffer);
            let chunk = piece_chars(bufs, p);
            let cut = p.start + utf8_len(chunk.subrange(0, n));
            let u = decode_utf8(bytes.subrange(p.start as int, e.0 as int)).len();
            let v = decode_utf8(
                bytes.subrange(p.start as int, e.0 + e.1.spec_len_bytes()),
            ).len();
            &&& u < v <= chunk.len()
            &&& (e.0 + e.1.spec_len_bytes() <= cut) == (v <= n)
            &&& (e.0 >= cut) == (u >= n)
        }),
{
    let bytes = bufs.bytes(p.buffer);
    let chunk = piece_chars(bufs, p);
    let s = p.start as int;
    let from = e.0 as int;
    let to = e.0 + e.1.spec_len_bytes();
    let cut = s + utf8_len(chunk.subrange(0, n));
    encode_utf8_valid_utf8(bufs.chars(p.buffer));
    lemma_range_split(bytes, s, p.spec_end(), n);
    lemma_break_bounds(bytes, e);
    lemma_chars_grow(bytes, s, from, to);
    lemma_chars_grow(bytes, s, to, p.spec_end());
    if to <= cut {
        lemma_chars_grow(bytes, s, to, cut);
    } else {
        lemma_chars_grow(bytes, s, cut, to);
    }
    if from >= cut {
        lemma_chars_grow(bytes, s, cut, from);
    } else {
        lemma_chars_grow(bytes, s, from, cut);
    }
}

impl<'b> PieceTable<'b> {
    /// The number of line breaks, among the first `n` of the table, that
    /// end at or before char index `c`.
    pub open(crate) spec fn breaks_ended(&self, c: int, n: int) -> nat
        decreases n,
    {
        if n <= 0 {
            0
        } else {
            self.breaks_ended(c, n - 1) + if self.line_from(n) <= c {
                1nat
            } else {
                0nat
            }
        }
    }

    /// The number of line breaks, among the first `n` of the table, that
    /// start at or after char index `c`.
    pub open(crate) spec fn breaks_starting(&self, c: int, n: int) -> nat
        decreases n,
    {
        if n <= 0 {
            0
        } else {
            self.breaks_starting(c, n - 1) + if self.line_to(n - 1) >= c {
                1nat
            } else {
                0nat
            }
        }
    }

    /// The number of lines that are left when the chars from index `start`
    /// up to index `end` go: one more than the line breaks that end at or
    /// before `start` or start at or after `end`.
    pub open(crate) spec fn lines_kept(&self, start: int, end: int) -> nat {
        1 + self.breaks_ended(start, self.spec_marks().len() as int) + self.breaks_starting(
            end,
            self.spec_marks().len() as int,
        )
    }

    /// The char index in piece `i` that is nearest to char index `c` of
    /// the text.
    pub open(crate) spec fn share_cut(&self, i: int, c: int) -> int {
        clamp_to(c - self.chars_before(i), self.spec_chunks()[i].len() as int)
    }

    /// The number of line breaks of the first `i` pieces that lie wholly
    /// before char index `c` of the text.
    pub open(crate) spec fn ended_sum(&self, c: int, i: int) -> nat
        decreases i,
    {
        if i <= 0 {
            0
        } else {
            self.ended_sum(c, i - 1) + self.breaks_before_cut(i - 1, self.share_cut(i - 1, c))
        }
    }

    /// The number of line breaks of the first `i` pieces that lie wholly at
    /// or after char index `c` of the text.
    pub open(crate) spec fn starting_sum(&self, c: int, i: int) -> nat
        decreases i,
    {
        if i <= 0 {
            0
        } else {
            self.starting_sum(c, i - 1) + self.breaks_after_cut(i - 1, self.share_cut(i - 1, c))
        }
    }
}

/// Of the line breaks of piece `i` that are among the first `r` entries of
/// its registry, those that end at or before char index `c` are those that
/// lie wholly before the cut of the piece at `c`, and those that start at
/// or after `c` are those that lie wholly after it.
#[verifier::rlimit(40)]
pub(crate) proof fn lemma_piece_counts(t: PieceTable, c: int, i: int, r: int)
    requires
        t.wf(),
        0 <= i < t.pieces@.len(),
        0 <= r <= t.buffers.registry(t.pieces@[i].buffer).len(),
    ensures
        ({
            let p = t.pieces@[i];
            let reg = t.buffers.registry(p.buffer);
            let base = marks(&t.buffers, t.pieces@.subrange(0, i)).len() as int;
            let seen = breaks_within(reg, p.start as int, p.spec_end(), r).len() as int;
            let cut = t.cut_byte(i, t.share_cut(i, c));
            &&& base + seen <= t.spec_marks().len()
            &&& t.breaks_ended(c, base + seen) == t.breaks_ended(c, base) + breaks_within(
                reg,
                p.start as int,
                cut,
                r,
            ).len()
            &&& t.breaks_starting(c, base + seen) == t.breaks_starting(c, base)
                + breaks_within(reg, cut, p.spec_end(), r).len()
        }),
    decreases r,
{
    let bufs = t.buffers;
    let p = t.pieces@[i];
    let reg = bufs.registry(p.buffer);
    let bytes = bufs.bytes(p.buffer);
    let s = p.start as int;
    let end = p.spec_end();
    let base = marks(&bufs, t.pieces@.subrange(0, i)).len() as int;
    let n = t.share_cut(i, c);
    let cut = t.cut_byte(i, n);
    let chunk = piece_chars(&bufs, p);
    assert(piece_ok(&bufs, p));
    encode_utf8_valid_utf8(bufs.chars(p.buffer));
    lemma_range_split(bytes, s, end, n);
    lemma_marks_step(&bufs, t.pieces@, i);
    lemma_marks_prefix(&bufs, t.pieces@, i + 1);
    lemma_within_prefix(reg, s, end, r, reg.len() as int);
    if r > 0 {
        lemma_piece_counts(t, c, i, r - 1);
        let e = reg[r - 1];
        if within(e, s, end) {
            let seen = breaks_within(reg, s, end, r - 1).len() as int;
            let k = base + seen;
            let here = piece_marks(&bufs, p, i);
            let upto = marks(&bufs, t.pieces@.subrange(0, i + 1));
            assert(breaks_within(reg, s, end, r)[seen] == e);
            assert(piece_breaks(&bufs, p)[seen] == e);
            assert(upto[k] == here[seen]);
            assert(t.spec_marks()[k] == (i as usize, (e.0 - s) as usize, e.1));
            assert(t.pieces.len() == t.pieces@.len());
            assert(entry_ok(bytes, e));
            lemma_entry_vs_cut(&bufs, p, e, n);
            assert(bytes.subrange(s, s + (e.0 - s)) == bytes.subrange(s, e.0 as int));
        }
    }
}

/// The line breaks among those of the first `i` pieces that end at or
/// before char index `c`, and those that start at or after it, counted
/// piece by piece.
#[verifier::rlimit(40)]
pub(crate) proof fn lemma_counts_by_piece(t: PieceTable, c: int, i: int)
    requires
        t.wf(),
        0 <= i <= t.pieces@.len(),
    ensures
        marks(&t.buffers, t.pieces@.subrange(0, i)).len() <= t.spec_marks().len(),
        t.breaks_ended(c, marks(&t.buffers, t.pieces@.subrange(0, i)).len() as int) == t.ended_sum(
            c,
            i,
        ),
        t.breaks_starting(c, marks(&t.buffers, t.pieces@.subrange(0, i)).len() as int)
            == t.starting_sum(c, i),
    decreases i,
{
    lemma_marks_prefix(&t.buffers, t.pieces@, i);
    if i > 0 {
        let p = t.pieces@[i - 1];
        let reg = t.buffers.registry(p.buffer);
        lemma_counts_by_piece(t, c, i - 1);
        lemma_piece_counts(t, c, i - 1, reg.len() as int);
        lemma_marks_step(&t.buffers, t.pieces@, i - 1);
    } else {
        assert(t.pieces@.subrange(0, 0) =~= Seq::<Piece>::empty());
    }
}

/// For a char index that lies in piece `at`, at its char of index `n`,
/// the nearest char index in a piece before `at` is its end, and in a
/// piece after `at` its start.
pub(crate) proof fn lemma_share_cut(t: PieceTable, at: int, n: int, j: int)
    requires
        t.wf(),
        0 <= at < t.pieces@.len(),
        0 <= n <= t.spec_chunks()[at].len(),
        0 <= j < t.pieces@.len(),
    ensures
        t.share_cut(j, t.chars_before(at) + n) == if j < at {
            t.pieces@[j].len_chars as int
        } else if j == at {
            n
        } else {
            0
        },
{
    let bufs = t.buffers;
    assert(piece_ok(&bufs, t.pieces@[j]));
    lemma_doc_at(&bufs, t.pieces@, j);
    lemma_doc_at(&bufs, t.pieces@, at);
    if j < at {
        lemma_ahead(&bufs, t.pieces@, j + 1, at);
    } else if j > at {
        lemma_ahead(&bufs, t.pieces@, at + 1, j);
    }
}

/// The pieces up to piece `j` hold the line breaks of the pieces before
/// `j` and those of piece `j`.
pub(crate) proof fn lemma_total_step(t: PieceTable, a: int, j: int)
    requires
        0 <= a <= j < t.pieces@.len(),
    ensures
        break_total(&t.buffers, t.pieces@.subrange(a, j + 1)) == break_total(
            &t.buffers,
            t.pieces@.subrange(a, j),
        ) + t.breaks_held(j),
{
    let bufs = t.buffers;
    assert(t.pieces@.subrange(a, j + 1) =~= t.pieces@.subrange(a, j) + seq![t.pieces@[j]]);
    lemma_total_concat(&bufs, t.pieces@.subrange(a, j), seq![t.pieces@[j]]);
    lemma_total_one(&bufs, t.pieces@[j]);
}

/// For a char index that lies in piece `at`, at its char of index `n`:
/// the line breaks of the first `i` pieces that lie wholly before it are
/// those of the pieces before `at` and those of `at` before the cut.
#[verifier::rlimit(40)]
pub(crate) proof fn lemma_ended_at_place(t: PieceTable, at: int, n: int, i: int)
    requires
        t.wf(),
        0 <= at < t.pieces@.len(),
        0 <= n <= t.spec_chunks()[at].len(),
        0 <= i <= t.pieces@.len(),
    ensures
        t.ended_sum(t.chars_before(at) + n, i) == if i <= at {
            break_total(&t.buffers, t.pieces@.subrange(0, i))
        } else {
            break_total(&t.buffers, t.pieces@.subrange(0, at)) + t.breaks_before_cut(at, n)
        },
    decreases i,
{
    if i > 0 {
        let j = i - 1;
        lemma_ended_at_place(t, at, n, j);
        lemma_share_cut(t, at, n, j);
        lemma_cut_edges(t, j);
        if j < at {
            lemma_total_step(t, 0, j);
        }
    } else {
        assert(t.pieces@.subrange(0, 0) =~= Seq::<Piece>::empty());
    }
}

/// For a char index that lies in piece `at`, at its char of index `n`:
/// the line breaks of the first `i` pieces that lie wholly at or after it
/// are those of `at` after the cut and those of the pieces after `at`.
#[verifier::rlimit(40)]
pub(crate) proof fn lemma_starting_at_place(t: PieceTable, at: int, n: int, i: int)
    requires
        t.wf(),
        0 <= at < t.pieces@.len(),
        0 <= n <= t.spec_chunks()[at].len(),
        0 <= i <= t.pieces@.len(),
    ensures
        t.starting_sum(t.chars_before(at) + n, i) == if i <= at {
            0
        } else {
            t.breaks_after_cut(at, n) + break_total(&t.buffers, t.pieces@.subrange(at + 1, i))
        },
    decreases i,
{
    if i > 0 {
        let j = i - 1;
        lemma_starting_at_place(t, at, n, j);
        lemma_share_cut(t, at, n, j);
        lemma_cut_edges(t, j);
        if j == at {
            assert(t.pieces@.subrange(at + 1, i) =~= Seq::<Piece>::empty());
        } else if j > at {
            lemma_total_step(t, at + 1, j);
        }
    }
}

/// The lines that are left of a table when the chars from index `start`
/// up to index `end` go, where `start` lies in piece `sp` at its char of
/// index `sc` and `end` in piece `ep` at its char of index `ec`: one more
/// than the line breaks of the pieces before `sp`, of `sp` before the cut,
/// of `ep` after the cut, and of the pieces after `ep`.
#[verifier::rlimit(40)]
pub(crate) proof fn lemma_lines_kept(
    t: PieceTable,
    start: int,
    sp: int,
    sc: int,
    end: int,
    ep: int,
    ec: int,
)
    requires
        t.wf(),
        0 <= sp <= ep < t.pieces@.len(),
        0 <= sc <= t.spec_chunks()[sp].len(),
        0 <= ec <= t.spec_chunks()[ep].len(),
        t.chars_before(sp) + sc == start,
        t.chars_before(ep) + ec == end,
    ensures
        t.lines_kept(start, end) == 1 + break_total(&t.buffers, t.pieces@.subrange(0, sp))
            + t.breaks_before_cut(sp, sc) + t.breaks_after_cut(ep, ec) + break_total(
            &t.buffers,
            t.pieces@.subrange(ep + 1, t.pieces@.len() as int),
        ),
{
    let all = t.pieces@.len() as int;
    assert(t.pieces@.subrange(0, all) =~= t.pieces@);
    lemma_counts_by_piece(t, start, all);
    lemma_counts_by_piece(t, end, all);
    lemma_ended_at_place(t, sp, sc, all);
    lemma_starting_at_place(t, ep, ec, all);
}

} // verus!
