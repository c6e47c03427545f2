//! Insertion: a new add piece, the extension of the last one, and `insert`.

use vstd::prelude::*;
use vstd::string::*;
use vstd::utf8::*;
use crate::buffer::{entry_ok, Buffers, BufferType};
use crate::encoding::{
    boundary, lemma_boundary_extend, lemma_encode_concat, lemma_range_split, lemma_range_valid,
    lemma_utf8_len_bounds, utf8_len,
};
use crate::laws::inserted;
use crate::piece::Piece;
use crate::registry::{lemma_within_agree, lemma_within_skip, lemma_within_take};
use crate::str_utils::{
    break_count, breaks_of, char_to_byte, count_chars, lemma_break_count, lemma_breaks_upto,
};
use crate::split::{part_after, part_before};
use crate::table::{
    break_total, doc, lemma_ahead, lemma_doc_at, lemma_doc_concat, lemma_doc_frame,
    lemma_doc_one, lemma_doc_split, lemma_total_at, lemma_total_concat, lemma_total_frame,
    lemma_total_one, lemma_total_split, piece_breaks, piece_bytes, piece_chars, piece_ok, within,
    PieceTable,
};

verus! {

/// `b1` is `b0` after `more` was appended to the add buffer, and its line
/// breaks to the registry of the add buffer.
pub open spec fn grows(b0: &Buffers, b1: &Buffers, more: Seq<char>) -> bool {
    &&& b0.wf()
    &&& b1.wf()
    &&& b1.original == b0.original
    &&& b1.unicode == b0.unicode
    &&& b1.chars(BufferType::Add) == b0.chars(BufferType::Add) + more
    &&& b1.bytes(BufferType::Add) == b0.bytes(BufferType::Add) + encode_utf8(more)
    &&& b1.registry(BufferType::Add) == b0.registry(BufferType::Add) + breaks_of(
        encode_utf8(more),
        b0.bytes(BufferType::Add).len() as int,
        b0.unicode,
    )
}

/// A piece that fits the buffers still fits them after the add buffer has
/// grown, and covers the same text and the same line breaks.
#[verifier::rlimit(40)]
pub proof fn lemma_piece_frame(b0: &Buffers, b1: &Buffers, more: Seq<char>, q: Piece)
    requires
        grows(b0, b1, more),
        piece_ok(b0, q),
    ensures
        piece_ok(b1, q),
        piece_bytes(b1, q) == piece_bytes(b0, q),
        piece_chars(b1, q) == piece_chars(b0, q),
        piece_breaks(b1, q) == piece_breaks(b0, q),
{
    if q.buffer == BufferType::Add {
        let old_bytes = b0.bytes(BufferType::Add);
        let new_bytes = b1.bytes(BufferType::Add);
        let tail = encode_utf8(more);
        let reg0 = b0.registry(BufferType::Add);
        let reg1 = b1.registry(BufferType::Add);
        let s = q.start as int;
        let e = q.spec_end();
        encode_utf8_valid_utf8(more);
        assert(new_bytes.subrange(s, e) =~= old_bytes.subrange(s, e));
        lemma_boundary_extend(old_bytes, tail, s);
        lemma_boundary_extend(old_bytes, tail, e);
        lemma_breaks_upto(tail, old_bytes.len() as int, tail.len() as int, b0.unicode);
        assert forall|k: int| reg0.len() <= k < reg1.len() implies (#[trigger] reg1[k]).0
            >= old_bytes.len() by {
            assert(reg1[k] == breaks_of(tail, old_bytes.len() as int, b0.unicode)[k - reg0.len()]);
        }
        assert forall|k: int| 0 <= k < reg0.len() implies (#[trigger] reg1[k]) == reg0[k] by {}
        lemma_within_skip(reg1, s, e, reg0.len() as int, reg1.len() as int);
        lemma_within_agree(reg1, s, e, reg0, s, e, reg0.len() as int);
    }
}

/// Pieces that fit the buffers still fit them after the add buffer has
/// grown, with the same text and as many line breaks.
pub proof fn lemma_pieces_frame(b0: &Buffers, b1: &Buffers, more: Seq<char>, pieces: Seq<Piece>)
    requires
        grows(b0, b1, more),
        forall|i: int| 0 <= i < pieces.len() ==> piece_ok(b0, #[trigger] pieces[i]),
    ensures
        forall|i: int| 0 <= i < pieces.len() ==> piece_ok(b1, #[trigger] pieces[i]),
        doc(b1, pieces) == doc(b0, pieces),
        break_total(b1, pieces) == break_total(b0, pieces),
{
    assert forall|i: int| 0 <= i < pieces.len() implies piece_ok(b1, #[trigger] pieces[i])
        && piece_chars(b1, pieces[i]) == piece_chars(b0, pieces[i]) && piece_breaks(
        b1,
        pieces[i],
    ) == piece_breaks(b0, pieces[i]) by {
        lemma_piece_frame(b0, b1, more, pieces[i]);
    }
    lemma_doc_frame(b1, b0, pieces);
    lemma_total_frame(b1, b0, pieces);
}

/// The text of a list of pieces with one more piece put in at `index`.
pub proof fn lemma_doc_insert(bufs: &Buffers, pieces: Seq<Piece>, index: int, p: Piece)
    requires
        0 <= index <= pieces.len(),
    ensures
        doc(bufs, pieces.insert(index, p)) == doc(bufs, pieces.subrange(0, index)) + piece_chars(
            bufs,
            p,
        ) + doc(bufs, pieces.subrange(index, pieces.len() as int)),
        break_total(bufs, pieces.insert(index, p)) == break_total(
            bufs,
            pieces.subrange(0, index),
        ) + piece_breaks(bufs, p).len() + break_total(
            bufs,
            pieces.subrange(index, pieces.len() as int),
        ),
{
    let before = pieces.subrange(0, index);
    let after = pieces.subrange(index, pieces.len() as int);
    assert(pieces.insert(index, p) =~= before + seq![p] + after);
    lemma_doc_concat(bufs, before + seq![p], after);
    lemma_doc_concat(bufs, before, seq![p]);
    lemma_doc_one(bufs, p);
    lemma_total_concat(bufs, before + seq![p], after);
    lemma_total_concat(bufs, before, seq![p]);
    lemma_total_one(bufs, p);
}

/// `q` is the add piece for `more`, appended to the add buffer of `b0`: it
/// starts where that buffer ended and covers the bytes of `more`, and its
/// first line break is the first new entry of the registry, if there is
/// one.
pub open spec fn fresh_piece(b0: &Buffers, more: Seq<char>, q: Piece) -> bool {
    &&& q.buffer == BufferType::Add
    &&& q.start == b0.bytes(BufferType::Add).len()
    &&& q.len_bytes == encode_utf8(more).len()
    &&& q.len_chars == more.len()
    &&& q.first_line_break == grown_first(
        None,
        b0.registry(BufferType::Add).len(),
        break_count(encode_utf8(more), b0.unicode),
    )
}

/// `q` is the add piece `p`, which ended where the add buffer of `b0`
/// ended, grown by `more`: it starts where `p` starts and covers the bytes
/// of `more` too, and its first line break is that of `p` or, if `p` had
/// none, the first new entry of the registry, if there is one.
pub open spec fn grown_piece(b0: &Buffers, p: Piece, more: Seq<char>, q: Piece) -> bool {
    &&& q.buffer == BufferType::Add
    &&& q.start == p.start
    &&& q.len_bytes == p.len_bytes + encode_utf8(more).len()
    &&& q.len_chars == p.len_chars + more.len()
    &&& q.first_line_break == grown_first(
        p.first_line_break,
        b0.registry(BufferType::Add).len(),
        break_count(encode_utf8(more), b0.unicode),
    )
}

/// How the pieces of `new` come from those of `old` by an insertion of
/// `text` at char index `c`: the piece of the last insertion has grown; or
/// a new add piece stands at the start, or after the piece that ends at
/// `c`; or the piece in which `c` lies gave way to its part before `c`,
/// the new add piece, and its part from `c` on.
pub open spec fn pieces_inserted(
    old: &PieceTable,
    new: &PieceTable,
    c: int,
    text: Seq<char>,
) -> bool {
    let bufs = old.spec_buffers();
    let was = old.spec_pieces();
    let now = new.spec_pieces();
    let place = old.spec_place(c);
    let at = place.0;
    if old.continues(c) {
        let last = old.last_piece()->0 as int;
        now == was.update(last, now[last]) && grown_piece(&bufs, was[last], text, now[last])
    } else if c == 0 {
        now == was.insert(0, now[0]) && fresh_piece(&bufs, text, now[0])
    } else if place.1 == was[at].len_chars {
        now == was.insert(at + 1, now[at + 1]) && fresh_piece(&bufs, text, now[at + 1])
    } else {
        &&& now == was.subrange(0, at) + seq![now[at], now[at + 1], now[at + 2]] + was.subrange(
            at + 1,
            was.len() as int,
        )
        &&& part_before(&bufs, was[at], place.1, now[at])
        &&& fresh_piece(&bufs, text, now[at + 1])
        &&& part_after(&bufs, was[at], place.1, now[at + 2])
    }
}

/// The texts of the pieces after an insertion of `text` at char index `c`
/// into a table with the pieces' texts `was`: the text of the piece of the
/// last insertion has grown by `text`; or `text` stands at the start, or
/// after the piece that ends at `c`; or the text of the piece in which `c`
/// lies gave way to its part before `c`, `text`, and its part from `c` on.
pub open spec fn chunks_inserted(old: &PieceTable, c: int, text: Seq<char>) -> Seq<Seq<char>> {
    let was = old.spec_chunks();
    let place = old.spec_place(c);
    let at = place.0;
    if old.continues(c) {
        let last = old.last_piece()->0 as int;
        was.update(last, was[last] + text)
    } else if c == 0 {
        was.insert(0, text)
    } else if place.1 == was[at].len() {
        was.insert(at + 1, text)
    } else {
        was.subrange(0, at) + seq![
            was[at].subrange(0, place.1),
            text,
            was[at].subrange(place.1, was[at].len() as int),
        ] + was.subrange(at + 1, was.len() as int)
    }
}

/// After an insertion, the texts of the pieces are those that the pieces
/// give.
#[verifier::rlimit(60)]
pub(crate) proof fn lemma_chunks_inserted(t0: PieceTable, t1: PieceTable, c: int, text: Seq<char>)
    requires
        t0.wf(),
        t1.wf(),
        0 <= c <= t0@.len(),
        grows(&t0.buffers, &t1.buffers, text),
        pieces_inserted(&t0, &t1, c, text),
        t0.continues(c) ==> t0.extends_at(c, t0.last_piece()->0 as int),
        !t0.continues(c) && c > 0 ==> t0.place_holds(t0.spec_place(c).0, t0.spec_place(c).1, c),
    ensures
        t1.spec_chunks() == chunks_inserted(&t0, c, text),
{
    let b0 = t0.buffers;
    let b1 = t1.buffers;
    let was = t0.pieces@;
    let now = t1.pieces@;
    let want = chunks_inserted(&t0, c, text);
    let place = t0.spec_place(c);
    let at = place.0;
    assert forall|k: int| 0 <= k < was.len() implies piece_chars(&b1, #[trigger] was[k])
        == piece_chars(&b0, was[k]) by {
        assert(piece_ok(&b0, was[k]));
        lemma_piece_frame(&b0, &b1, text, was[k]);
    }
    if t0.continues(c) {
        let last = t0.last_piece()->0 as int;
        assert(piece_ok(&b0, was[last]));
        lemma_piece_extend(&b0, &b1, text, was[last], now[last]);
        assert(t1.spec_chunks() =~= want);
    } else if c == 0 {
        lemma_piece_fresh(&b0, &b1, text, now[0]);
        assert forall|k: int| 0 <= k < now.len() implies t1.spec_chunks()[k] == want[k] by {
            if k > 0 {
                assert(now[k] == was[k - 1]);
            }
        }
        assert(t1.spec_chunks() =~= want);
    } else if place.1 == was[at].len_chars {
        assert(piece_ok(&b0, was[at]));
        lemma_piece_fresh(&b0, &b1, text, now[at + 1]);
        assert forall|k: int| 0 <= k < now.len() implies t1.spec_chunks()[k] == want[k] by {
            if k > at + 1 {
                assert(now[k] == was[k - 1]);
            } else if k <= at {
                assert(now[k] == was[k]);
            }
        }
        assert(t1.spec_chunks() =~= want);
    } else {
        assert(piece_ok(&b0, was[at]));
        lemma_piece_fresh(&b0, &b1, text, now[at + 1]);
        lemma_piece_frame(&b0, &b1, text, now[at]);
        lemma_piece_frame(&b0, &b1, text, now[at + 2]);
        assert(now.len() == was.len() + 2);
        assert forall|k: int| 0 <= k < now.len() implies t1.spec_chunks()[k] == want[k] by {
            if k > at + 2 {
                assert(now[k] == was[k - 2]);
            } else if k < at {
                assert(now[k] == was[k]);
            }
        }
        assert(t1.spec_chunks() =~= want);
    }
}

/// What the first line break of an add piece is once the piece has grown
/// with the add buffer: what it was, or the first new entry.
pub open spec fn grown_first(first: Option<usize>, registered: nat, added: nat) -> Option<usize> {
    match first {
        Some(i) => Some(i),
        None => if added > 0 {
            Some(registered as usize)
        } else {
            None
        },
    }
}

/// An add piece that ends where the add buffer ends, grown by the text
/// appended to the add buffer, fits the new buffers; its text is the old
/// text and the new, and it holds the old line breaks and the new.
#[verifier::rlimit(40)]
pub proof fn lemma_piece_extend(b0: &Buffers, b1: &Buffers, more: Seq<char>, p: Piece, q: Piece)
    requires
        grows(b0, b1, more),
        piece_ok(b0, p),
        p.buffer == BufferType::Add,
        p.spec_end() == b0.bytes(BufferType::Add).len(),
        q.buffer == BufferType::Add,
        q.start == p.start,
        q.len_bytes == p.len_bytes + encode_utf8(more).len(),
        q.len_chars == p.len_chars + more.len(),
        q.first_line_break == grown_first(
            p.first_line_break,
            b0.registry(BufferType::Add).len(),
            break_count(encode_utf8(more), b0.unicode),
        ),
    ensures
        piece_ok(b1, q),
        piece_chars(b1, q) == piece_chars(b0, p) + more,
        piece_breaks(b1, q).len() == piece_breaks(b0, p).len() + break_count(encode_utf8(more), b0.unicode),
{
    let old_bytes = b0.bytes(BufferType::Add);
    let new_bytes = b1.bytes(BufferType::Add);
    let tail = encode_utf8(more);
    let reg0 = b0.registry(BufferType::Add);
    let reg1 = b1.registry(BufferType::Add);
    let s = p.start as int;
    let e = p.spec_end();
    let e1 = q.spec_end();
    let base = old_bytes.len() as int;
    encode_utf8_valid_utf8(more);
    encode_utf8_valid_utf8(b0.chars(BufferType::Add));
    assert(piece_chars(b1, q) == piece_chars(b0, p) + more) by {
        lemma_range_valid(old_bytes, s, e);
        decode_utf8_encode_utf8(old_bytes.subrange(s, e));
        lemma_encode_concat(piece_chars(b0, p), more);
        assert(new_bytes.subrange(s, e1) =~= old_bytes.subrange(s, e) + tail);
        encode_utf8_decode_utf8(piece_chars(b0, p) + more);
    }
    lemma_boundary_extend(old_bytes, tail, s);
    lemma_breaks_upto(tail, base, tail.len() as int, b0.unicode);
    lemma_break_count(tail, base, tail.len() as int, b0.unicode);
    assert forall|k: int| 0 <= k < reg0.len() implies (#[trigger] reg1[k]) == reg0[k]
        && reg0[k].0 + reg0[k].1.spec_len_bytes() <= base by {
        assert(entry_ok(old_bytes, reg0[k]));
    }
    assert forall|k: int| reg0.len() <= k < reg1.len() implies within(
        #[trigger] reg1[k],
        s,
        e1,
    ) && base <= reg1[k].0 < e1 by {
        assert(reg1[k] == breaks_of(tail, base, b0.unicode)[k - reg0.len()]);
    }
    lemma_within_take(reg1, s, e1, reg0.len() as int, reg1.len() as int);
    lemma_within_agree(reg1, s, e1, reg0, s, e, reg0.len() as int);
}

/// A new add piece for the text appended to the add buffer fits the new
/// buffers; its text is the new text, and it holds the new line breaks.
#[verifier::rlimit(40)]
pub proof fn lemma_piece_fresh(b0: &Buffers, b1: &Buffers, more: Seq<char>, q: Piece)
    requires
        grows(b0, b1, more),
        q.buffer == BufferType::Add,
        q.start == b0.bytes(BufferType::Add).len(),
        q.len_bytes == encode_utf8(more).len(),
        q.len_chars == more.len(),
        q.first_line_break == grown_first(
            None,
            b0.registry(BufferType::Add).len(),
            break_count(encode_utf8(more), b0.unicode),
        ),
    ensures
        piece_ok(b1, q),
        piece_chars(b1, q) == more,
        piece_breaks(b1, q).len() == break_count(encode_utf8(more), b0.unicode),
{
    let old_bytes = b0.bytes(BufferType::Add);
    let new_bytes = b1.bytes(BufferType::Add);
    let tail = encode_utf8(more);
    let reg0 = b0.registry(BufferType::Add);
    let reg1 = b1.registry(BufferType::Add);
    let base = old_bytes.len() as int;
    let s = q.start as int;
    let e = q.spec_end();
    encode_utf8_valid_utf8(more);
    encode_utf8_valid_utf8(b0.chars(BufferType::Add));
    encode_utf8_decode_utf8(more);
    assert(boundary(old_bytes, base));
    lemma_boundary_extend(old_bytes, tail, base);
    assert(piece_bytes(b1, q) =~= tail);
    lemma_breaks_upto(tail, base, tail.len() as int, b0.unicode);
    lemma_break_count(tail, base, tail.len() as int, b0.unicode);
    assert forall|k: int| 0 <= k < reg0.len() implies (#[trigger] reg1[k]).0 < base by {
        assert(entry_ok(old_bytes, reg0[k]));
    }
    assert forall|k: int| reg0.len() <= k < reg1.len() implies within(
        #[trigger] reg1[k],
        s,
        e,
    ) && base <= reg1[k].0 < e by {
        assert(reg1[k] == breaks_of(tail, base, b0.unicode)[k - reg0.len()]);
    }
    lemma_within_skip(reg1, s, e, 0, reg0.len() as int);
    lemma_within_take(reg1, s, e, reg0.len() as int, reg1.len() as int);
}

/// A table that has a new add piece at `index` for the text appended to
/// the add buffer is consistent and holds the old text with `more` put in
/// before the piece that was at `index`.
#[verifier::rlimit(40)]
pub(crate) proof fn lemma_insert_keeps(
    t0: PieceTable,
    t1: PieceTable,
    more: Seq<char>,
    index: int,
    q: Piece,
)
    requires
        t0.wf(),
        grows(&t0.buffers, &t1.buffers, more),
        0 <= index <= t0.pieces@.len(),
        t1.pieces@ == t0.pieces@.insert(index, q),
        q.buffer == BufferType::Add,
        q.start == t0.buffers.bytes(BufferType::Add).len(),
        q.len_bytes == encode_utf8(more).len(),
        q.len_chars == more.len(),
        q.first_line_break == grown_first(
            None,
            t0.buffers.registry(BufferType::Add).len(),
            break_count(encode_utf8(more), t0.buffers.unicode),
        ),
        t1.len_chars == t0.len_chars + more.len(),
        t1.len_bytes == t0.len_bytes + encode_utf8(more).len(),
        t1.len_lines == t0.len_lines + break_count(encode_utf8(more), t0.buffers.unicode),
        t1.last_insert == None::<(usize, usize)>,
    ensures
        t1.wf(),
        t1@ == t0@.subrange(0, t0.chars_before(index) as int) + more + t0@.subrange(
            t0.chars_before(index) as int,
            t0@.len() as int,
        ),
        t1.spec_len_lines() == t0.spec_len_lines() + break_count(encode_utf8(more), t0.buffers.unicode),
        t1.extends_at((t0.chars_before(index) + more.len()) as int, index),
{
    let b0 = t0.buffers;
    let b1 = t1.buffers;
    let pieces0 = t0.pieces@;
    let pieces1 = t1.pieces@;
    let before = pieces0.subrange(0, index);
    let after = pieces0.subrange(index, pieces0.len() as int);
    let count = break_count(encode_utf8(more), t0.buffers.unicode);
    assert(piece_ok(&b1, q) && piece_chars(&b1, q) == more && piece_breaks(&b1, q).len() == count)
        by {
        lemma_piece_fresh(&b0, &b1, more, q);
    }
    assert(doc(&b1, before) == doc(&b0, before) && break_total(&b1, before) == break_total(
        &b0,
        before,
    )) by {
        lemma_pieces_frame(&b0, &b1, more, before);
    }
    assert(doc(&b1, after) == doc(&b0, after) && break_total(&b1, after) == break_total(
        &b0,
        after,
    )) by {
        lemma_pieces_frame(&b0, &b1, more, after);
    }
    let head = doc(&b0, before);
    let rest = doc(&b0, after);
    assert(t0@ == head + rest && t0.spec_len_lines() == 1 + break_total(&b0, before)
        + break_total(&b0, after)) by {
        lemma_doc_split(&b0, pieces0, index);
        lemma_total_split(&b0, pieces0, index);
    }
    assert(t1@ == head + more + rest && t1.spec_len_lines() == 1 + break_total(&b0, before)
        + count + break_total(&b0, after)) by {
        lemma_doc_insert(&b1, pieces0, index, q);
    }
    assert(t0@.subrange(0, head.len() as int) =~= head);
    assert(t0@.subrange(head.len() as int, t0@.len() as int) =~= rest);
    assert(utf8_len(t1@) == utf8_len(t0@) + utf8_len(more)) by {
        lemma_encode_concat(head, rest);
        lemma_encode_concat(head, more);
        lemma_encode_concat(head + more, rest);
    }
    assert(t1.chars_before(index + 1) == head.len() + more.len()) by {
        assert(pieces1.subrange(0, index + 1) =~= before + seq![q]);
        lemma_doc_concat(&b1, before, seq![q]);
        lemma_doc_one(&b1, q);
    }
    assert forall|k: int| 0 <= k < pieces1.len() implies piece_ok(&b1, #[trigger] pieces1[k]) by {
        if k < index {
            assert(pieces1[k] == pieces0[k]);
            lemma_piece_frame(&b0, &b1, more, pieces0[k]);
        } else if k > index {
            assert(pieces1[k] == pieces0[k - 1]);
            lemma_piece_frame(&b0, &b1, more, pieces0[k - 1]);
        }
    }
    assert(b1.registered() == b0.registered() + count) by {
        lemma_break_count(
            encode_utf8(more),
            b0.bytes(BufferType::Add).len() as int,
            encode_utf8(more).len() as int,
            b0.unicode,
        );
    }
}

/// A table in which the piece of the last insertion has grown by `more`
/// is consistent and holds the old text with `more` put in after that piece.
#[verifier::rlimit(40)]
pub(crate) proof fn lemma_extend_keeps(
    t0: PieceTable,
    t1: PieceTable,
    more: Seq<char>,
    at: usize,
    end: usize,
)
    requires
        end == t0.chars_before(at + 1) + more.len(),
        t1.last_insert == Some((end, at)),
        t1.contiguous,
        t0.wf(),
        grows(&t0.buffers, &t1.buffers, more),
        t0.extends_at(t0.chars_before(at + 1) as int, at as int),
        t1.pieces@.len() == t0.pieces@.len(),
        t1.pieces@ == t0.pieces@.update(at as int, t1.pieces@[at as int]),
        t1.pieces@[at as int].buffer == BufferType::Add,
        t1.pieces@[at as int].start == t0.pieces@[at as int].start,
        t1.pieces@[at as int].len_bytes == t0.pieces@[at as int].len_bytes + encode_utf8(more).len(),
        t1.pieces@[at as int].len_chars == t0.pieces@[at as int].len_chars + more.len(),
        t1.pieces@[at as int].first_line_break == grown_first(
            t0.pieces@[at as int].first_line_break,
            t0.buffers.registry(BufferType::Add).len(),
            break_count(encode_utf8(more), t0.buffers.unicode),
        ),
        t1.len_chars == t0.len_chars + more.len(),
        t1.len_bytes == t0.len_bytes + encode_utf8(more).len(),
        t1.len_lines == t0.len_lines + break_count(encode_utf8(more), t0.buffers.unicode),
    ensures
        t1.wf(),
        t1@ == t0@.subrange(0, t0.chars_before(at + 1) as int) + more + t0@.subrange(
            t0.chars_before(at + 1) as int,
            t0@.len() as int,
        ),
        t1.spec_len_lines() == t0.spec_len_lines() + break_count(encode_utf8(more), t0.buffers.unicode),
{
    let i = at as int;
    let b0 = t0.buffers;
    let b1 = t1.buffers;
    let pieces0 = t0.pieces@;
    let pieces1 = t1.pieces@;
    let before = pieces0.subrange(0, i);
    let after = pieces0.subrange(i + 1, pieces0.len() as int);
    let p = pieces0[i];
    let q = pieces1[i];
    let count = break_count(encode_utf8(more), t0.buffers.unicode);
    assert(piece_ok(&b1, q) && piece_chars(&b1, q) == piece_chars(&b0, p) + more && piece_breaks(
        &b1,
        q,
    ).len() == piece_breaks(&b0, p).len() + count) by {
        assert(piece_ok(&b0, p));
        lemma_piece_extend(&b0, &b1, more, p, q);
    }
    assert(doc(&b1, before) == doc(&b0, before) && break_total(&b1, before) == break_total(
        &b0,
        before,
    )) by {
        lemma_pieces_frame(&b0, &b1, more, before);
    }
    assert(doc(&b1, after) == doc(&b0, after) && break_total(&b1, after) == break_total(
        &b0,
        after,
    )) by {
        lemma_pieces_frame(&b0, &b1, more, after);
    }
    assert(pieces1.subrange(0, i) =~= before);
    assert(pieces1.subrange(i + 1, pieces1.len() as int) =~= after);
    let head = doc(&b0, before) + piece_chars(&b0, p);
    let rest = doc(&b0, after);
    assert(t0@ == head + rest && t0.chars_before(i + 1) == head.len()) by {
        lemma_doc_at(&b0, pieces0, i);
    }
    assert(t1@ == head + more + rest && t1.chars_before(i + 1) == head.len() + more.len()) by {
        lemma_doc_at(&b1, pieces1, i);
    }
    assert(t0@.subrange(0, head.len() as int) =~= head);
    assert(t0@.subrange(head.len() as int, t0@.len() as int) =~= rest);
    assert(t1.spec_len_lines() == t0.spec_len_lines() + count) by {
        lemma_total_at(&b0, pieces0, i);
        lemma_total_at(&b1, pieces1, i);
    }
    assert(utf8_len(t1@) == utf8_len(t0@) + utf8_len(more)) by {
        lemma_encode_concat(head, rest);
        lemma_encode_concat(head, more);
        lemma_encode_concat(head + more, rest);
    }
    assert forall|k: int| 0 <= k < pieces1.len() implies piece_ok(&b1, #[trigger] pieces1[k]) by {
        if k != i {
            assert(pieces1[k] == pieces0[k]);
            lemma_piece_frame(&b0, &b1, more, pieces0[k]);
        }
    }
    assert(b1.registered() == b0.registered() + count) by {
        lemma_break_count(
            encode_utf8(more),
            b0.bytes(BufferType::Add).len() as int,
            encode_utf8(more).len() as int,
            b0.unicode,
        );
    }
    assert(t1.last_insert_ok());
}

/// A char index after the start lies in one piece only, if a piece is
/// taken to hold the indices after its first char, up to its end.
pub(crate) proof fn lemma_place_unique(t: PieceTable, i: int, m: int, j: int, n: int)
    requires
        0 <= i < t.pieces@.len(),
        0 <= j < t.pieces@.len(),
        0 < m <= t.spec_chunks()[i].len(),
        0 < n <= t.spec_chunks()[j].len(),
        t.chars_before(i) + m == t.chars_before(j) + n,
    ensures
        i == j,
        m == n,
{
    let bufs = t.buffers;
    if i < j {
        lemma_doc_at(&bufs, t.pieces@, i);
        lemma_ahead(&bufs, t.pieces@, i + 1, j);
    } else if j < i {
        lemma_doc_at(&bufs, t.pieces@, j);
        lemma_ahead(&bufs, t.pieces@, j + 1, i);
    }
}

/// A consistent table stays so when it takes note of a piece that the next
/// insertion can extend.
pub(crate) proof fn lemma_note_last(t0: PieceTable, t1: PieceTable, end: usize, at: usize)
    requires
        t0.wf(),
        t0.extends_at(end as int, at as int),
        t1.buffers == t0.buffers,
        t1.pieces == t0.pieces,
        t1.len_bytes == t0.len_bytes,
        t1.len_chars == t0.len_chars,
        t1.len_lines == t0.len_lines,
        t1.last_insert == Some((end, at)),
        t1.contiguous,
    ensures
        t1.wf(),
        t1@ == t0@,
        t1.spec_len_lines() == t0.spec_len_lines(),
{
}

/// A char index inside a piece is not one at which a piece ends.
pub(crate) proof fn lemma_inside(t: PieceTable, i: int, n: int)
    requires
        0 <= i < t.pieces@.len(),
        0 < n < t.spec_chunks()[i].len(),
    ensures
        !t.at_piece_end(t.chars_before(i) + n),
{
    let bufs = t.buffers;
    lemma_doc_at(&bufs, t.pieces@, i);
    assert forall|k: int| 0 <= k <= t.pieces@.len() implies t.chars_before(k) != t.chars_before(i)
        + n by {
        if k <= i {
            lemma_ahead(&bufs, t.pieces@, k, i);
        } else {
            lemma_ahead(&bufs, t.pieces@, i + 1, k);
        }
    }
}

/// The char index at which a piece ends is one at which a piece ends, and
/// so is the start of the text.
pub(crate) proof fn lemma_at_end(t: PieceTable, i: int)
    requires
        0 <= i < t.pieces@.len(),
    ensures
        t.chars_before(i + 1) == t.chars_before(i) + t.spec_chunks()[i].len(),
        t.at_piece_end(t.chars_before(i + 1) as int),
        t.at_piece_end(0),
        t.chars_before(0) == 0,
{
    lemma_doc_at(&t.buffers, t.pieces@, i);
    assert(t.pieces@.subrange(0, 0) =~= Seq::<Piece>::empty());
    assert(t.chars_before(0) == 0);
}

/// The start of the text is where a piece ends or starts.
pub(crate) proof fn lemma_at_start(t: PieceTable)
    ensures
        t.at_piece_end(0),
        t.chars_before(0) == 0,
{
    assert(t.pieces@.subrange(0, 0) =~= Seq::<Piece>::empty());
    assert(t.chars_before(0) == 0);
}

impl<'b> PieceTable<'b> {
    /// An insertion at `char_idx` continues the last insertion: it extends
    /// the piece that the last insertion went to.
    pub open(crate) spec fn continues(&self, char_idx: int) -> bool {
        self.last_end() is Some && self.last_end()->0 == char_idx
    }

    /// `char_idx` is where a piece ends or starts.
    pub open(crate) spec fn at_piece_end(&self, char_idx: int) -> bool {
        exists|i: int| 0 <= i <= self.pieces@.len() && #[trigger] self.chars_before(i) == char_idx
    }

    /// An insertion at `char_idx` would cut a piece between a carriage
    /// return and the line feed that follows it.
    pub open(crate) spec fn splits_crlf(&self, char_idx: int) -> bool {
        &&& !self.continues(char_idx)
        &&& exists|i: int, n: int|
            0 <= i < self.pieces@.len() && 0 < n < self.spec_chunks()[i].len() && self.chars_before(
                i,
            ) + n == char_idx && #[trigger] self.crlf_at(i, n)
    }

    /// There is room for `text` in the add buffer.
    pub open(crate) spec fn has_room(&self, text: Seq<char>) -> bool {
        self.buffers.stored() + encode_utf8(text).len() < usize::MAX
    }

    /// Piece `piece_idx` is an add piece that ends where the add buffer
    /// ends, and `char_idx` is the char index at which it ends.
    pub open(crate) spec fn extends_at(&self, char_idx: int, piece_idx: int) -> bool {
        &&& 0 <= piece_idx < self.pieces@.len()
        &&& self.pieces@[piece_idx].buffer == BufferType::Add
        &&& self.pieces@[piece_idx].spec_end() == self.buffers.bytes(BufferType::Add).len()
        &&& char_idx == self.chars_before(piece_idx + 1)
    }

    /// Create a new add piece with `text`, and insert that piece at `index`
    /// in the list of pieces.
    #[verifier::rlimit(40)]
    pub(crate) fn insert_piece(&mut self, index: usize, text: &str)
        requires
            old(self).wf(),
            index <= old(self).spec_piece_count(),
            old(self).has_room(text@),
        ensures
            final(self).wf(),
            grows(&old(self).buffers, &final(self).buffers, text@),
            final(self).pieces@ == old(self).pieces@.insert(
                index as int,
                final(self).pieces@[index as int],
            ),
            fresh_piece(&old(self).buffers, text@, final(self).pieces@[index as int]),
            final(self).spec_contiguous() == old(self).spec_contiguous(),
            final(self).spec_unicode() == old(self).spec_unicode(),
            final(self)@ == old(self)@.subrange(0, old(self).chars_before(index as int) as int)
                + text@ + old(self)@.subrange(
                old(self).chars_before(index as int) as int,
                old(self)@.len() as int,
            ),
            final(self).spec_len_lines() == old(self).spec_len_lines() + break_count(text.spec_bytes(), old(self).spec_unicode()),
            final(self).spec_piece_count() == old(self).spec_piece_count() + 1,
            final(self).last_end() == None::<usize>,
            final(self).extends_at(
                (old(self).chars_before(index as int) + text@.len()) as int,
                index as int,
            ),
            final(self).stored() == old(self).stored() + text.spec_bytes().len(),
    {
        let start: usize = self.buffers.add.content.as_str().len();
        let first: usize = self.buffers.add.line_breaks.len();
        let added: usize = self.buffers.push_text(text);
        let piece = Piece {
            buffer: BufferType::Add,
            start,
            first_line_break: if added > 0 {
                Some(first)
            } else {
                None
            },
            len_chars: count_chars(text),
            len_bytes: text.len(),
        };
        proof {
            lemma_utf8_len_bounds(text@);
            lemma_utf8_len_bounds(old(self)@);
            lemma_break_count(
                text.spec_bytes(),
                old(self).buffers.bytes(BufferType::Add).len() as int,
                text.spec_bytes().len() as int,
                old(self).buffers.unicode,
            );
        }
        self.pieces.insert(index, piece);
        self.len_chars = self.len_chars + piece.len_chars;
        self.len_bytes = self.len_bytes + piece.len_bytes;
        self.len_lines = self.len_lines + added;
        self.last_insert = None;
        proof {
            assert(grows(&old(self).buffers, &self.buffers, text@));
            lemma_insert_keeps(*old(self), *self, text@, index as int, piece);
        }
    }

    /// Extend a piece's end, and append the text to the end of the add
    /// buffer. The piece is the one that the last insertion went to, and
    /// ends where the add buffer ends.
    #[verifier::rlimit(40)]
    pub(crate) fn extend_piece(&mut self, text: &str, text_len_chars: usize, piece_idx: usize)
        requires
            old(self).wf(),
            old(self).last_piece() == Some(piece_idx),
            text_len_chars == text@.len(),
            old(self).has_room(text@),
        ensures
            final(self).wf(),
            grows(&old(self).buffers, &final(self).buffers, text@),
            final(self).pieces@ == old(self).pieces@.update(
                piece_idx as int,
                final(self).pieces@[piece_idx as int],
            ),
            grown_piece(
                &old(self).buffers,
                old(self).pieces@[piece_idx as int],
                text@,
                final(self).pieces@[piece_idx as int],
            ),
            final(self).spec_contiguous() == old(self).spec_contiguous(),
            final(self).spec_unicode() == old(self).spec_unicode(),
            final(self)@ == old(self)@.subrange(0, old(self).chars_before(piece_idx + 1) as int)
                + text@ + old(self)@.subrange(
                old(self).chars_before(piece_idx + 1) as int,
                old(self)@.len() as int,
            ),
            final(self).spec_len_lines() == old(self).spec_len_lines() + break_count(text.spec_bytes(), old(self).spec_unicode()),
            final(self).pieces@.len() == old(self).pieces@.len(),
            final(self).last_insert == Some(
                ((old(self).chars_before(piece_idx + 1) + text@.len()) as usize, piece_idx),
            ),
            final(self).stored() == old(self).stored() + text.spec_bytes().len(),
    {
        let piece = self.pieces[piece_idx];
        let end_chars: usize = match self.last_insert {
            Some(last) => last.0,
            None => 0,
        };
        proof {
            lemma_utf8_len_bounds(text@);
            lemma_utf8_len_bounds(old(self)@);
            lemma_doc_split(&self.buffers, self.pieces@, piece_idx + 1);
            lemma_doc_at(&self.buffers, self.pieces@, piece_idx as int);
            assert(piece_ok(&self.buffers, piece));
        }
        let first: usize = self.buffers.add.line_breaks.len();
        let added: usize = self.buffers.push_text(text);
        proof {
            lemma_break_count(
                text.spec_bytes(),
                old(self).buffers.bytes(BufferType::Add).len() as int,
                text.spec_bytes().len() as int,
                old(self).buffers.unicode,
            );
        }
        let first_line_break: Option<usize> = match piece.first_line_break {
            Some(i) => Some(i),
            None => if added > 0 {
                Some(first)
            } else {
                None
            },
        };
        let extended = Piece {
            buffer: piece.buffer,
            start: piece.start,
            first_line_break,
            len_bytes: piece.len_bytes + text.len(),
            len_chars: piece.len_chars + text_len_chars,
        };
        self.pieces.set(piece_idx, extended);
        self.len_chars = self.len_chars + text_len_chars;
        self.len_bytes = self.len_bytes + text.len();
        self.len_lines = self.len_lines + added;
        self.last_insert = Some((end_chars + text_len_chars, piece_idx));
        proof {
            assert(grows(&old(self).buffers, &self.buffers, text@));
            lemma_extend_keeps(
                *old(self),
                *self,
                text@,
                piece_idx,
                (end_chars + text_len_chars) as usize,
            );
        }
    }

    /// Whether there is room for `text` in the add buffer.
    pub fn has_room_for(&self, text: &str) -> (room: bool)
        requires
            self.wf(),
        ensures
            room == self.has_room(text@),
    {
        let stored: usize = self.buffers.index(BufferType::Original).len() + self.buffers.index(
            BufferType::Add,
        ).len();
        text.as_bytes().len() < usize::MAX - stored
    }

    /// Whether `text` can be inserted at `char_idx`: the index lies in the
    /// text or at its end, there is room for `text`, and the insertion would
    /// not part a carriage return from its line feed.
    #[verifier::rlimit(40)]
    pub fn can_insert(&self, char_idx: usize, text: &str) -> (can: bool)
        requires
            self.wf(),
        ensures
            can == (char_idx <= self@.len() && self.has_room(text@) && !self.splits_crlf(
                char_idx as int,
            )),
    {
        if char_idx > self.len_chars {
            return false;
        }
        if !self.has_room_for(text) {
            return false;
        }
        if let Some(last) = self.last_insert {
            if last.0 == char_idx {
                return true;
            }
        }
        if char_idx == 0 {
            return true;
        }
        let place = self.piece_at_char(char_idx);
        let piece_idx: usize = place.0;
        let rel: usize = place.1;
        let piece = self.pieces[piece_idx];
        assert(piece_ok(&self.buffers, piece));
        if rel == piece.len_chars {
            proof {
                assert forall|i: int, n: int|
                    0 <= i < self.pieces@.len() && 0 < n < self.spec_chunks()[i].len()
                        && self.chars_before(i) + n == char_idx implies !#[trigger] self.crlf_at(
                    i,
                    n,
                ) by {
                    lemma_place_unique(*self, piece_idx as int, rel as int, i, n);
                }
            }
            return true;
        }
        let chunk = self.piece_text(piece_idx);
        let byte_idx: usize = char_to_byte(chunk, rel);
        let bytes = chunk.as_bytes();
        proof {
            encode_utf8_valid_utf8(self.buffers.chars(piece.buffer));
            lemma_range_split(
                self.buffers.bytes(piece.buffer),
                piece.start as int,
                piece.spec_end(),
                rel as int,
            );
        }
        let parted: bool = bytes[byte_idx - 1] == 0x0D && bytes[byte_idx] == 0x0A;
        proof {
            assert(parted == self.crlf_at(piece_idx as int, rel as int));
            if !parted {
                assert forall|i: int, n: int|
                    0 <= i < self.pieces@.len() && 0 < n < self.spec_chunks()[i].len()
                        && self.chars_before(i) + n == char_idx implies !#[trigger] self.crlf_at(
                    i,
                    n,
                ) by {
                    lemma_place_unique(*self, piece_idx as int, rel as int, i, n);
                }
            }
        }
        !parted
    }

    /// Insert `text` at char index `char_idx`.
    #[verifier::rlimit(80)]
    pub fn insert(&mut self, char_idx: usize, text: &str)
        requires
            old(self).wf(),
            char_idx <= old(self)@.len(),
            old(self).has_room(text@),
            !old(self).splits_crlf(char_idx as int),
        ensures
            final(self).wf(),
            grows(&old(self).spec_buffers(), &final(self).spec_buffers(), text@),
            final(self).at_piece_end(char_idx + text@.len()),
            pieces_inserted(old(self), final(self), char_idx as int, text@),
            final(self).spec_chunks() == chunks_inserted(old(self), char_idx as int, text@),
            final(self).spec_contiguous() == old(self).spec_contiguous(),
            final(self).spec_unicode() == old(self).spec_unicode(),
            final(self)@ == inserted(old(self)@, char_idx as int, text@),
            final(self).spec_len_lines() == old(self).spec_len_lines() + break_count(text.spec_bytes(), old(self).spec_unicode()),
            final(self).last_end() == if old(self).spec_contiguous() {
                Some((char_idx + text@.len()) as usize)
            } else {
                None
            },
            final(self).stored() == old(self).stored() + text.spec_bytes().len(),
            old(self).continues(char_idx as int) ==> final(self).spec_piece_count() == old(
                self,
            ).spec_piece_count(),
            !old(self).continues(char_idx as int) && old(self).at_piece_end(char_idx as int)
                ==> final(self).spec_piece_count() == old(self).spec_piece_count() + 1,
            !old(self).continues(char_idx as int) && !old(self).at_piece_end(char_idx as int)
                ==> final(self).spec_piece_count() == old(self).spec_piece_count() + 2,
    {
        let len_chars: usize = count_chars(text);
        if let Some(last) = self.last_insert {
            if last.0 == char_idx {
                self.extend_piece(text, len_chars, last.1);
                proof {
                    lemma_chunks_inserted(*old(self), *self, char_idx as int, text@);
                }
                return;
            }
        }
        let place = self.piece_at_char(char_idx);
        let piece_idx: usize = place.0;
        let rel: usize = place.1;
        let new_idx: usize;
        if rel == 0 {
            proof {
                lemma_at_start(*old(self));
            }
            self.insert_piece(piece_idx, text);
            new_idx = piece_idx;
        } else {
            let piece = self.pieces[piece_idx];
            assert(piece_ok(&self.buffers, piece));
            assert(piece_idx + 1 <= self.pieces.len());
            if rel == piece.len_chars {
                proof {
                    lemma_at_end(*old(self), piece_idx as int);
                }
                self.insert_piece(piece_idx + 1, text);
            } else {
                proof {
                    lemma_inside(*old(self), piece_idx as int, rel as int);
                    assert(!old(self).crlf_at(piece_idx as int, rel as int));
                }
                self.split_piece_and_insert(piece_idx, rel, text);
            }
            new_idx = piece_idx + 1;
        }
        if self.contiguous {
            let ghost noted = *self;
            self.last_insert = Some((char_idx + len_chars, new_idx));
            proof {
                lemma_note_last(noted, *self, (char_idx + len_chars) as usize, new_idx);
            }
        }
        proof {
            lemma_chunks_inserted(*old(self), *self, char_idx as int, text@);
        }
    }

    /// Inserts `text` at char index `char_idx` if it can be inserted there,
    /// and says whether it was; if not, the table stays as it is.
    pub fn try_insert(&mut self, char_idx: usize, text: &str) -> (done: bool)
        requires
            old(self).wf(),
        ensures
            final(self).wf(),
            done ==> grows(&old(self).spec_buffers(), &final(self).spec_buffers(), text@),
            done ==> final(self).at_piece_end(char_idx + text@.len()),
            done ==> pieces_inserted(old(self), final(self), char_idx as int, text@),
            done ==> final(self).spec_chunks() == chunks_inserted(
                old(self),
                char_idx as int,
                text@,
            ),
            done ==> final(self).last_end() == if old(self).spec_contiguous() {
                Some((char_idx + text@.len()) as usize)
            } else {
                None
            },
            done ==> final(self).stored() == old(self).stored() + text.spec_bytes().len(),
            done && old(self).continues(char_idx as int) ==> final(self).spec_piece_count() == old(
                self,
            ).spec_piece_count(),
            done && !old(self).continues(char_idx as int) && old(self).at_piece_end(
                char_idx as int,
            ) ==> final(self).spec_piece_count() == old(self).spec_piece_count() + 1,
            done && !old(self).continues(char_idx as int) && !old(self).at_piece_end(
                char_idx as int,
            ) ==> final(self).spec_piece_count() == old(self).spec_piece_count() + 2,
            final(self).spec_contiguous() == old(self).spec_contiguous(),
            final(self).spec_unicode() == old(self).spec_unicode(),
            done == (char_idx <= old(self)@.len() && old(self).has_room(text@) && !old(
                self,
            ).splits_crlf(char_idx as int)),
            done ==> final(self)@ == inserted(old(self)@, char_idx as int, text@),
            done ==> final(self).spec_len_lines() == old(self).spec_len_lines() + break_count(text.spec_bytes(), old(self).spec_unicode()),
            !done ==> *final(self) == *old(self),
    {
        if self.can_insert(char_idx, text) {
            self.insert(char_idx, text);
            true
        } else {
            false
        }
    }
}

} // verus!
