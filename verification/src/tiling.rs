//! The lines and the line breaks of a table lie one after another in its text.

use vstd::prelude::*;
use vstd::seq_lib::*;
use vstd::utf8::*;
use crate::encoding::lemma_decode_two;
use crate::lines::{lemma_marks, mark_before, mark_ok};
use crate::piece::Piece;
use crate::table::{
    chunks, doc, lemma_doc_at, lemma_doc_concat, lemma_doc_one, piece_chars, piece_ok, PieceTable,
};

verus! {

/// A range of a text made of five parts, from a place in the second part
/// to a place in the fourth.
pub proof fn lemma_range_of_five(
    a: Seq<char>,
    b: Seq<char>,
    c: Seq<char>,
    d: Seq<char>,
    e: Seq<char>,
    x: int,
    y: int,
)
    requires
        0 <= x <= b.len(),
        0 <= y <= d.len(),
    ensures
        (a + b + c + d + e).subrange(a.len() + x, a.len() + b.len() + c.len() + y) == b.subrange(
            x,
            b.len() as int,
        ) + c + d.subrange(0, y),
{
    let whole = a + b + c + d + e;
    let from = a.len() + x;
    let to = a.len() + b.len() + c.len() + y;
    assert(whole.subrange(from, to) =~= b.subrange(x, b.len() as int) + c + d.subrange(0, y));
}

/// A place in a piece parts the text of the piece in two: what lies
/// before the place and what lies after it.
pub(crate) proof fn lemma_place(t: &PieceTable, place: (usize, usize))
    requires
        t.wf(),
        t.pieces@.len() > 0,
        t.place_ok(place),
    ensures
        ({
            let p = t.pieces@[place.0 as int];
            let bytes = t.buffers.bytes(p.buffer);
            let chunk = piece_chars(&t.buffers, p);
            let x = t.char_pos(place) - t.chars_before(place.0 as int);
            &&& 0 <= x <= chunk.len()
            &&& decode_utf8(bytes.subrange(p.start as int, p.start + place.1)) == chunk.subrange(
                0,
                x,
            )
            &&& decode_utf8(bytes.subrange(p.start + place.1, p.spec_end())) == chunk.subrange(
                x,
                chunk.len() as int,
            )
        }),
{
    let p = t.pieces@[place.0 as int];
    let bytes = t.buffers.bytes(p.buffer);
    let chunk = piece_chars(&t.buffers, p);
    assert(piece_ok(&t.buffers, p));
    encode_utf8_valid_utf8(t.buffers.chars(p.buffer));
    lemma_decode_two(bytes, p.start as int, p.start + place.1, p.spec_end());
    let head = decode_utf8(bytes.subrange(p.start as int, p.start + place.1));
    let tail = decode_utf8(bytes.subrange(p.start + place.1, p.spec_end()));
    assert(chunk.subrange(0, head.len() as int) =~= head);
    assert(chunk.subrange(head.len() as int, chunk.len() as int) =~= tail);
}

/// The text between two places of a table is a range of the text of the
/// table: from the char index of the first place to that of the second.
#[verifier::rlimit(40)]
pub(crate) proof fn lemma_span_is_range(t: &PieceTable, start: (usize, usize), end: (usize, usize))
    requires
        t.wf(),
        t.span_ok(start, end),
    ensures
        0 <= t.char_pos(start) <= t.char_pos(end) <= t@.len(),
        t.span_text(start, end) == t@.subrange(t.char_pos(start), t.char_pos(end)),
{
    let bufs = t.buffers;
    let pieces = t.pieces@;
    let parts = t.span_parts(start, end);
    if pieces.len() == 0 {
        assert(t@.subrange(0, 0) =~= parts.flatten());
    } else {
        let sp = start.0 as int;
        let ep = end.0 as int;
        let p = pieces[sp];
        let q = pieces[ep];
        let bytes = bufs.bytes(p.buffer);
        let a = doc(&bufs, pieces.subrange(0, sp));
        let b = piece_chars(&bufs, p);
        assert(piece_ok(&bufs, p));
        assert(piece_ok(&bufs, q));
        encode_utf8_valid_utf8(bufs.chars(p.buffer));
        lemma_place(t, start);
        lemma_place(t, end);
        let x = t.char_pos(start) - t.chars_before(sp);
        let y = t.char_pos(end) - t.chars_before(ep);
        if sp == ep {
            let part = decode_utf8(bytes.subrange(p.start + start.1, p.start + end.1));
            assert(parts =~= seq![part]);
            parts.lemma_flatten_one_element();
            assert(parts.first() == part);
            lemma_decode_two(bytes, p.start as int, p.start + start.1, p.start + end.1);
            assert(b.subrange(x, y) =~= part) by {
                assert(b.subrange(0, y) == b.subrange(0, x) + part);
                assert(b.subrange(0, y).subrange(x, y) =~= part);
                assert(b.subrange(0, y).subrange(x, y) =~= b.subrange(x, y));
            }
            lemma_doc_at(&bufs, pieces, sp);
            let rest = doc(&bufs, pieces.subrange(sp + 1, pieces.len() as int));
            assert((a + b + rest).subrange(a.len() + x, a.len() + y) =~= b.subrange(x, y));
        } else {
            let mid = pieces.subrange(sp + 1, ep);
            let c = doc(&bufs, mid);
            let d = piece_chars(&bufs, q);
            let after = pieces.subrange(ep + 1, pieces.len() as int);
            let e = doc(&bufs, after);
            let first = b.subrange(x, b.len() as int);
            let last = d.subrange(0, y);
            assert(t@ == a + b + c + d + e && t.chars_before(ep) == a.len() + b.len() + c.len())
                by {
                let front = pieces.subrange(0, sp);
                assert(pieces =~= front + seq![p] + mid + seq![q] + after);
                assert(pieces.subrange(0, ep) =~= front + seq![p] + mid);
                lemma_doc_concat(&bufs, front + seq![p] + mid + seq![q], after);
                lemma_doc_concat(&bufs, front + seq![p] + mid, seq![q]);
                lemma_doc_concat(&bufs, front + seq![p], mid);
                lemma_doc_concat(&bufs, front, seq![p]);
                lemma_doc_one(&bufs, p);
                lemma_doc_one(&bufs, q);
            }
            assert(parts.flatten() == first + c + last) by {
                let inner = chunks(&bufs, mid);
                assert(parts =~= seq![first] + inner + seq![last]);
                lemma_flatten_concat(seq![first] + inner, seq![last]);
                lemma_flatten_concat(seq![first], inner);
                seq![first].lemma_flatten_one_element();
                seq![last].lemma_flatten_one_element();
                assert(seq![first].first() == first);
                assert(seq![last].first() == last);
            }
            lemma_range_of_five(a, b, c, d, e, x, y);
        }
    }
}

/// The places at which a line starts and ends lie in the table, the start
/// not after the end.
pub(crate) proof fn lemma_line_places(t: &PieceTable, k: int)
    requires
        t.wf(),
        0 <= k < t.spec_len_lines(),
    ensures
        t.span_ok(t.line_start(k), t.line_end(k)),
        t.spec_marks().len() + 1 == t.spec_len_lines(),
{
    let all = t.spec_marks();
    assert(t.pieces.len() == t.pieces@.len());
    lemma_marks(&t.buffers, t.pieces@);
    if t.pieces@.len() > 0 {
        assert(piece_ok(&t.buffers, t.pieces@[0]));
        assert(piece_ok(&t.buffers, t.pieces@.last()));
        if k > 0 && k < all.len() {
            assert(mark_before(all[k - 1], all[k]));
        }
    }
}

/// A line break of the table lies between two places of one piece, and
/// the text between them is the chars of its kind.
#[verifier::rlimit(40)]
pub(crate) proof fn lemma_mark_is_break(t: &PieceTable, k: int)
    requires
        t.wf(),
        0 <= k < t.spec_marks().len(),
    ensures
        t.span_ok(t.line_end(k), t.line_start(k + 1)),
        t.span_text(t.line_end(k), t.line_start(k + 1)) == t.spec_marks()[k].2.spec_chars(),
{
    let m = t.spec_marks()[k];
    assert(t.pieces.len() == t.pieces@.len());
    lemma_marks(&t.buffers, t.pieces@);
    let p = t.pieces@[m.0 as int];
    assert(mark_ok(&t.buffers, p, m));
    let from = t.line_end(k);
    let to = t.line_start(k + 1);
    let parts = t.span_parts(from, to);
    m.2.lemma_bytes_of_chars();
    assert(parts =~= seq![m.2.spec_chars()]);
    parts.lemma_flatten_one_element();
    assert(parts.first() == m.2.spec_chars());
}

/// The lines and the line breaks of a table lie one after another in its
/// text: each line is a range of the text, the first starts where the text
/// starts, the last ends where the text ends, and between the end of a line
/// and the start of the next lie the chars of the line break between them.
#[verifier::rlimit(40)]
pub proof fn law_lines_tile_text(t: &PieceTable, k: int)
    requires
        t.wf(),
        0 <= k < t.spec_len_lines(),
    ensures
        0 <= t.line_from(k) <= t.line_to(k) <= t@.len(),
        t.line_text(k) == t@.subrange(t.line_from(k), t.line_to(k)),
        k == 0 ==> t.line_from(k) == 0,
        k + 1 == t.spec_len_lines() ==> t.line_to(k) == t@.len(),
        k + 1 < t.spec_len_lines() ==> t.line_to(k) <= t.line_from(k + 1) && t@.subrange(
            t.line_to(k),
            t.line_from(k + 1),
        ) == t.spec_marks()[k].2.spec_chars(),
{
    assert(t.pieces.len() == t.pieces@.len());
    lemma_line_places(t, k);
    lemma_span_is_range(t, t.line_start(k), t.line_end(k));
    if k == 0 && t.pieces@.len() > 0 {
        let p = t.pieces@[0];
        assert(t.pieces@.subrange(0, 0) =~= Seq::<Piece>::empty());
        assert(t.buffers.bytes(p.buffer).subrange(p.start as int, p.start + 0) =~= Seq::<u8>::empty());
    }
    if k + 1 == t.spec_len_lines() && t.pieces@.len() > 0 {
        let last = t.pieces@.len() - 1;
        lemma_doc_at(&t.buffers, t.pieces@, last);
        assert(t.pieces@.subrange(0, last + 1) =~= t.pieces@);
    }
    if k + 1 < t.spec_len_lines() {
        lemma_mark_is_break(t, k);
        lemma_span_is_range(t, t.line_end(k), t.line_start(k + 1));
    }
}

/// The lines up to line `k`, with the line breaks between them, are the
/// text up to the end of line `k`.
pub proof fn lemma_joined_lines(t: &PieceTable, k: int)
    requires
        t.wf(),
        0 <= k < t.spec_len_lines(),
    ensures
        t.joined_lines(k) == t@.subrange(0, t.line_to(k)),
    decreases k,
{
    law_lines_tile_text(t, k);
    if k > 0 {
        lemma_joined_lines(t, k - 1);
        law_lines_tile_text(t, k - 1);
        assert(t.joined_lines(k) =~= t@.subrange(0, t.line_to(k)));
    }
}

/// The lines of a table, one after another with the line breaks between
/// them, are its text.
pub proof fn law_lines_give_text(t: &PieceTable)
    requires
        t.wf(),
    ensures
        t.joined_lines(t.spec_len_lines() - 1) == t@,
{
    let last = t.spec_len_lines() - 1;
    lemma_joined_lines(t, last);
    law_lines_tile_text(t, last);
    assert(t@.subrange(0, t@.len() as int) =~= t@);
}

} // verus!
