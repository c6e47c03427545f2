//! Cutting a piece in two.

use vstd::prelude::*;
use vstd::string::*;
use vstd::utf8::*;
use crate::buffer::{entry_ok, lemma_break_bounds, Buffers};
use crate::encoding::{boundary, lemma_range_split, utf8_len};
use crate::insert::{fresh_piece, grows};
use crate::piece::Piece;
use crate::registry::{count_within, find_first_break, lemma_within_parts};
use crate::str_utils::{break_count, char_to_byte};
use crate::table::{
    break_total, doc, lemma_doc_at, lemma_doc_concat, lemma_doc_one, lemma_total_at,
    lemma_total_concat, lemma_total_one, piece_breaks, piece_bytes, piece_chars, piece_ok, within,
    PieceTable,
};

verus! {

/// The text and the line breaks of a list of pieces in which the piece at
/// `i` is replaced by two.
#[verifier::rlimit(40)]
pub proof fn lemma_doc_two(bufs: &Buffers, pieces: Seq<Piece>, i: int, a: Piece, b: Piece)
    requires
        0 <= i < pieces.len(),
    ensures
        doc(bufs, pieces.update(i, a).insert(i + 1, b)) == doc(bufs, pieces.subrange(0, i))
            + piece_chars(bufs, a) + piece_chars(bufs, b) + doc(
            bufs,
            pieces.subrange(i + 1, pieces.len() as int),
        ),
        doc(bufs, pieces.update(i, a).insert(i + 1, b).subrange(0, i + 1)) == doc(
            bufs,
            pieces.subrange(0, i),
        ) + piece_chars(bufs, a),
        break_total(bufs, pieces.update(i, a).insert(i + 1, b)) == break_total(
            bufs,
            pieces.subrange(0, i),
        ) + piece_breaks(bufs, a).len() + piece_breaks(bufs, b).len() + break_total(
            bufs,
            pieces.subrange(i + 1, pieces.len() as int),
        ),
{
    let before = pieces.subrange(0, i);
    let after = pieces.subrange(i + 1, pieces.len() as int);
    let all = pieces.update(i, a).insert(i + 1, b);
    assert(all =~= before + seq![a] + seq![b] + after);
    assert(all.subrange(0, i + 1) =~= before + seq![a]);
    lemma_doc_concat(bufs, before + seq![a] + seq![b], after);
    lemma_doc_concat(bufs, before + seq![a], seq![b]);
    lemma_doc_concat(bufs, before, seq![a]);
    lemma_doc_one(bufs, a);
    lemma_doc_one(bufs, b);
    lemma_total_concat(bufs, before + seq![a] + seq![b], after);
    lemma_total_concat(bufs, before + seq![a], seq![b]);
    lemma_total_concat(bufs, before, seq![a]);
    lemma_total_one(bufs, a);
    lemma_total_one(bufs, b);
}

/// `q` is what piece `p` holds before its char of index `n`: a piece that
/// fits the buffers, starts where `p` starts and has those `n` chars.
pub open spec fn part_before(bufs: &Buffers, p: Piece, n: int, q: Piece) -> bool {
    &&& piece_ok(bufs, q)
    &&& q.buffer == p.buffer
    &&& q.start == p.start
    &&& q.len_bytes == utf8_len(piece_chars(bufs, p).subrange(0, n))
    &&& q.len_chars == n
    &&& piece_chars(bufs, q) == piece_chars(bufs, p).subrange(0, n)
}

/// `q` is what piece `p` holds from its char of index `n` on: a piece that
/// fits the buffers, starts where that char starts and ends where `p` ends.
pub open spec fn part_after(bufs: &Buffers, p: Piece, n: int, q: Piece) -> bool {
    &&& piece_ok(bufs, q)
    &&& q.buffer == p.buffer
    &&& q.start == p.start + utf8_len(piece_chars(bufs, p).subrange(0, n))
    &&& q.spec_end() == p.spec_end()
    &&& q.len_chars == piece_chars(bufs, p).len() - n
    &&& piece_chars(bufs, q) == piece_chars(bufs, p).subrange(
        n,
        piece_chars(bufs, p).len() as int,
    )
}

/// The bytes at which piece `p` is cut into `before` and `after` are no
/// carriage return and line feed.
pub open spec fn clean_cut(bufs: &Buffers, p: Piece, before: Piece) -> bool {
    let bytes = piece_bytes(bufs, p);
    let cut = before.len_bytes as int;
    !(0 < cut < bytes.len() && bytes[cut - 1] == 0x0D && bytes[cut] == 0x0A)
}

/// The two parts of a piece hold no more line breaks than the piece, and
/// as many where the cut does not part a carriage return from its line feed.
pub proof fn lemma_cut_breaks(bufs: &Buffers, p: Piece, before: Piece, after: Piece)
    requires
        bufs.wf(),
        piece_ok(bufs, p),
        before.buffer == p.buffer,
        after.buffer == p.buffer,
        before.start == p.start,
        before.spec_end() == after.start,
        after.spec_end() == p.spec_end(),
        boundary(bufs.bytes(p.buffer), after.start as int),
    ensures
        piece_breaks(bufs, before).len() + piece_breaks(bufs, after).len() <= piece_breaks(
            bufs,
            p,
        ).len(),
        clean_cut(bufs, p, before) ==> piece_breaks(bufs, before).len() + piece_breaks(
            bufs,
            after,
        ).len() == piece_breaks(bufs, p).len(),
{
    let reg = bufs.registry(p.buffer);
    let bytes = bufs.bytes(p.buffer);
    let cut = after.start as int;
    encode_utf8_valid_utf8(bufs.chars(p.buffer));
    if clean_cut(bufs, p, before) {
        assert forall|k: int|
            0 <= k < reg.len() && within(
                #[trigger] reg[k],
                p.start as int,
                p.spec_end(),
            ) implies !(reg[k].0 < cut < reg[k].0 + reg[k].1.spec_len_bytes()) by {
            if reg[k].0 < cut < reg[k].0 + reg[k].1.spec_len_bytes() {
                assert(entry_ok(bytes, reg[k]));
                lemma_break_bounds(bytes, reg[k]);
                assert(piece_bytes(bufs, p)[cut - p.start - 1] == bytes[cut - 1]);
                assert(piece_bytes(bufs, p)[cut - p.start] == bytes[cut]);
            }
        }
    }
    lemma_within_parts(reg, p.start as int, cut, p.spec_end(), reg.len() as int);
}

/// A table in which one piece was cut in two is consistent and holds the
/// same text and as many line breaks.
#[verifier::rlimit(40)]
pub(crate) proof fn lemma_split_keeps(
    t0: PieceTable,
    t1: PieceTable,
    i: int,
    n: int,
    before: Piece,
    after: Piece,
)
    requires
        t0.wf(),
        0 <= i < t0.pieces@.len(),
        t1.buffers == t0.buffers,
        t1.len_bytes == t0.len_bytes,
        t1.len_chars == t0.len_chars,
        t1.len_lines == t0.len_lines,
        t1.last_insert == None::<(usize, usize)>,
        t1.pieces@ == t0.pieces@.update(i, before).insert(i + 1, after),
        piece_ok(&t0.buffers, before),
        piece_ok(&t0.buffers, after),
        piece_chars(&t0.buffers, before) + piece_chars(&t0.buffers, after) == piece_chars(
            &t0.buffers,
            t0.pieces@[i],
        ),
        piece_chars(&t0.buffers, before).len() == n,
        piece_breaks(&t0.buffers, before).len() + piece_breaks(&t0.buffers, after).len()
            == piece_breaks(&t0.buffers, t0.pieces@[i]).len(),
    ensures
        t1.wf(),
        t1@ == t0@,
        t1.spec_len_lines() == t0.spec_len_lines(),
        t1.chars_before(i + 1) == t0.chars_before(i) + n,
{
    let bufs = t0.buffers;
    let pieces0 = t0.pieces@;
    assert(t1@ == t0@ && t1.chars_before(i + 1) == t0.chars_before(i) + n) by {
        lemma_doc_two(&bufs, pieces0, i, before, after);
        lemma_doc_at(&bufs, pieces0, i);
    }
    assert(t1.spec_len_lines() == t0.spec_len_lines()) by {
        lemma_doc_two(&bufs, pieces0, i, before, after);
        lemma_total_at(&bufs, pieces0, i);
    }
    assert forall|k: int| 0 <= k < t1.pieces@.len() implies piece_ok(
        &t1.buffers,
        #[trigger] t1.pieces@[k],
    ) by {
        if k < i {
            assert(t1.pieces@[k] == pieces0[k]);
        } else if k > i + 1 {
            assert(t1.pieces@[k] == pieces0[k - 1]);
        }
    }
}

/// A list of pieces in which one piece gave way to two, and then a third
/// came between the two: the pieces before, the three, and the pieces
/// after.
pub proof fn lemma_three_for_one(old: Seq<Piece>, halves: Seq<Piece>, all: Seq<Piece>, i: int)
    requires
        0 <= i < old.len(),
        halves == old.update(i, halves[i]).insert(i + 1, halves[i + 1]),
        all == halves.insert(i + 1, all[i + 1]),
    ensures
        all == old.subrange(0, i) + seq![all[i], all[i + 1], all[i + 2]] + old.subrange(
            i + 1,
            old.len() as int,
        ),
        all[i] == halves[i],
        all[i + 2] == halves[i + 1],
        all.len() == old.len() + 2,
{
    assert(all =~= old.subrange(0, i) + seq![all[i], all[i + 1], all[i + 2]] + old.subrange(
        i + 1,
        old.len() as int,
    ));
}

impl<'b> PieceTable<'b> {
    /// In piece `piece_idx`, the char of index `char_idx` is a line feed and
    /// the char before it a carriage return.
    pub open(crate) spec fn crlf_at(&self, piece_idx: int, char_idx: int) -> bool {
        let bytes = self.spec_chunk_bytes(piece_idx);
        let cut = utf8_len(self.spec_chunks()[piece_idx].subrange(0, char_idx)) as int;
        0 < cut < bytes.len() && bytes[cut - 1] == 0x0D && bytes[cut] == 0x0A
    }

    /// The number of line breaks that `piece` holds.
    pub(crate) fn count_breaks(&self, piece: Piece) -> (n: usize)
        requires
            self.buffers.wf(),
            piece_ok(&self.buffers, piece),
        ensures
            n == piece_breaks(&self.buffers, piece).len(),
    {
        let reg = self.buffers.line_breaks(piece.buffer);
        let range = piece.byte_range();
        count_within(reg, piece.first_line_break, range.0, range.1)
    }

    /// Count the amount of line breaks that a piece contains.
    pub(crate) fn count_piece_line_breaks(&self, piece_idx: usize) -> (n: usize)
        requires
            self.wf(),
            piece_idx < self.pieces@.len(),
        ensures
            n == piece_breaks(&self.buffers, self.pieces@[piece_idx as int]).len(),
    {
        let piece = self.pieces[piece_idx];
        assert(piece_ok(&self.buffers, piece));
        self.count_breaks(piece)
    }

    /// The two pieces that piece `piece_idx` falls into when it is cut
    /// before its char of index `char_idx`.
    #[verifier::rlimit(40)]
    pub(crate) fn cut_piece(&self, piece_idx: usize, char_idx: usize) -> (halves: (Piece, Piece))
        requires
            self.wf(),
            piece_idx < self.pieces@.len(),
            0 < char_idx < self.pieces@[piece_idx as int].len_chars,
        ensures
            ({
                let p = self.pieces@[piece_idx as int];
                let chars = piece_chars(&self.buffers, p);
                let (before, after) = halves;
                &&& part_before(&self.buffers, p, char_idx as int, before)
                &&& part_after(&self.buffers, p, char_idx as int, after)
                &&& piece_ok(&self.buffers, before)
                &&& piece_ok(&self.buffers, after)
                &&& before.buffer == p.buffer
                &&& after.buffer == p.buffer
                &&& before.start == p.start
                &&& before.spec_end() == after.start
                &&& after.spec_end() == p.spec_end()
                &&& before.len_bytes == utf8_len(chars.subrange(0, char_idx as int))
                &&& after.len_bytes == utf8_len(chars.subrange(char_idx as int, chars.len() as int))
                &&& piece_chars(&self.buffers, before) == chars.subrange(0, char_idx as int)
                &&& piece_chars(&self.buffers, after) == chars.subrange(
                    char_idx as int,
                    chars.len() as int,
                )
            }),
    {
        let piece = self.pieces[piece_idx];
        assert(piece_ok(&self.buffers, piece));
        let text = self.piece_text(piece_idx);
        let byte_idx: usize = char_to_byte(text, char_idx);
        proof {
            encode_utf8_valid_utf8(self.buffers.chars(piece.buffer));
            lemma_range_split(
                self.buffers.bytes(piece.buffer),
                piece.start as int,
                piece.spec_end(),
                char_idx as int,
            );
        }
        let end: usize = piece.start + piece.len_bytes;
        let cut: usize = piece.start + byte_idx;
        let reg = self.buffers.line_breaks(piece.buffer);
        let before_first: Option<usize> = match piece.first_line_break {
            Some(i) => if reg[i].0 < cut {
                Some(i)
            } else {
                proof {
                    assert forall|j: int| 0 <= j < reg@.len() implies !(piece.start <= (
                    #[trigger] reg@[j]).0 < cut) by {
                        if j > i {
                            assert(reg@[i as int].0 + reg@[i as int].1.spec_len_bytes()
                                <= reg@[j].0);
                        }
                    }
                }
                None
            },
            None => None,
        };
        let after_first: Option<usize> = match piece.first_line_break {
            Some(i) => find_first_break(reg, i, cut, end),
            None => None,
        };
        let before = Piece {
            buffer: piece.buffer,
            start: piece.start,
            first_line_break: before_first,
            len_bytes: byte_idx,
            len_chars: char_idx,
        };
        let after = Piece {
            buffer: piece.buffer,
            start: cut,
            first_line_break: after_first,
            len_bytes: piece.len_bytes - byte_idx,
            len_chars: piece.len_chars - char_idx,
        };
        (before, after)
    }

    /// Cuts piece `piece_idx` in two before its char of index `char_idx`.
    /// The text stays as it is.
    #[verifier::rlimit(40)]
    pub(crate) fn split_piece(&mut self, piece_idx: usize, char_idx: usize)
        requires
            old(self).wf(),
            piece_idx < old(self).pieces@.len(),
            0 < char_idx < old(self).pieces@[piece_idx as int].len_chars,
            !old(self).crlf_at(piece_idx as int, char_idx as int),
        ensures
            final(self).wf(),
            final(self).pieces@ == old(self).pieces@.update(
                piece_idx as int,
                final(self).pieces@[piece_idx as int],
            ).insert(piece_idx + 1, final(self).pieces@[piece_idx + 1]),
            part_before(
                &old(self).buffers,
                old(self).pieces@[piece_idx as int],
                char_idx as int,
                final(self).pieces@[piece_idx as int],
            ),
            part_after(
                &old(self).buffers,
                old(self).pieces@[piece_idx as int],
                char_idx as int,
                final(self).pieces@[piece_idx + 1],
            ),
            final(self).spec_contiguous() == old(self).spec_contiguous(),
            final(self).spec_unicode() == old(self).spec_unicode(),
            final(self)@ == old(self)@,
            final(self).buffers == old(self).buffers,
            final(self).spec_len_lines() == old(self).spec_len_lines(),
            final(self).pieces@.len() == old(self).pieces@.len() + 1,
            final(self).chars_before(piece_idx + 1) == old(self).chars_before(piece_idx as int)
                + char_idx,
    {
        let halves = self.cut_piece(piece_idx, char_idx);
        let before = halves.0;
        let after = halves.1;
        assert(piece_idx < self.pieces.len());
        self.pieces.set(piece_idx, before);
        self.pieces.insert(piece_idx + 1, after);
        self.last_insert = None;
        proof {
            let p = old(self).pieces@[piece_idx as int];
            let chars = piece_chars(&self.buffers, p);
            assert(piece_ok(&self.buffers, p));
            assert(chars =~= chars.subrange(0, char_idx as int) + chars.subrange(
                char_idx as int,
                chars.len() as int,
            ));
            lemma_cut_breaks(&self.buffers, p, before, after);
        }
        proof {
            lemma_split_keeps(*old(self), *self, piece_idx as int, char_idx as int, before, after);
        }
    }

    /// Cuts piece `piece_idx` before its char of index `char_idx` and puts
    /// a new add piece with `text` between the two parts.
    #[verifier::rlimit(60)]
    pub(crate) fn split_piece_and_insert(&mut self, piece_idx: usize, char_idx: usize, text: &str)
        requires
            old(self).wf(),
            piece_idx < old(self).pieces@.len(),
            0 < char_idx < old(self).pieces@[piece_idx as int].len_chars,
            !old(self).crlf_at(piece_idx as int, char_idx as int),
            old(self).has_room(text@),
        ensures
            final(self).wf(),
            grows(&old(self).buffers, &final(self).buffers, text@),
            final(self).pieces@ == old(self).pieces@.subrange(0, piece_idx as int) + seq![
                final(self).pieces@[piece_idx as int],
                final(self).pieces@[piece_idx + 1],
                final(self).pieces@[piece_idx + 2],
            ] + old(self).pieces@.subrange(piece_idx + 1, old(self).pieces@.len() as int),
            part_before(
                &old(self).buffers,
                old(self).pieces@[piece_idx as int],
                char_idx as int,
                final(self).pieces@[piece_idx as int],
            ),
            fresh_piece(&old(self).buffers, text@, final(self).pieces@[piece_idx + 1]),
            part_after(
                &old(self).buffers,
                old(self).pieces@[piece_idx as int],
                char_idx as int,
                final(self).pieces@[piece_idx + 2],
            ),
            final(self).spec_contiguous() == old(self).spec_contiguous(),
            final(self).spec_unicode() == old(self).spec_unicode(),
            final(self)@ == old(self)@.subrange(
                0,
                old(self).chars_before(piece_idx as int) + char_idx,
            ) + text@ + old(self)@.subrange(
                old(self).chars_before(piece_idx as int) + char_idx,
                old(self)@.len() as int,
            ),
            final(self).spec_len_lines() == old(self).spec_len_lines() + break_count(
                text.spec_bytes(),
                old(self).spec_unicode(),
            ),
            final(self).pieces@.len() == old(self).pieces@.len() + 2,
            final(self).last_end() == None::<usize>,
            final(self).extends_at(
                old(self).chars_before(piece_idx as int) + char_idx + text@.len(),
                piece_idx + 1,
            ),
            final(self).stored() == old(self).stored() + text.spec_bytes().len(),
    {
        self.split_piece(piece_idx, char_idx);
        let ghost halves = self.pieces@;
        assert(piece_idx + 1 < self.pieces.len());
        self.insert_piece(piece_idx + 1, text);
        proof {
            lemma_three_for_one(old(self).pieces@, halves, self.pieces@, piece_idx as int);
        }
    }
}

} // verus!
