//! Removal: of pieces, of the start or the end of a piece, and `remove`.

use vstd::prelude::*;
use vstd::string::*;
use vstd::utf8::*;
use crate::buffer::Buffers;
use crate::encoding::{
    lemma_encode_concat, lemma_range_split, lemma_range_valid, lemma_utf8_len_bounds, utf8_len,
};
use crate::insert::lemma_at_start;
use crate::kept::lemma_lines_kept;
use crate::piece::Piece;
use crate::range::{range_end, range_start, span_end, span_start, CharBound};
use crate::registry::{lemma_within_narrow, lemma_within_parts, lemma_within_skip};
use crate::split::{lemma_cut_breaks, part_after, part_before};
use crate::table::{
    break_total, breaks_within, doc, lemma_ahead, lemma_doc_at, lemma_doc_concat, lemma_doc_one,
    lemma_place_is, lemma_total_at, lemma_total_concat, lemma_total_one, piece_breaks,
    piece_bytes, piece_chars, piece_ok, PieceTable,
};

verus! {

/// `text` without its chars from index `from` up to index `to`.
pub open spec fn cut_out(text: Seq<char>, from: int, to: int) -> Seq<char> {
    text.subrange(0, from) + text.subrange(to, text.len() as int)
}

/// `after` is `before` without the chars between the two bounds.
pub open spec fn removed(
    before: Seq<char>,
    after: Seq<char>,
    start: CharBound,
    end: CharBound,
) -> bool {
    let from = span_start(start, before.len());
    let to = span_end(end, before.len());
    if from < to {
        after == cut_out(before, from as int, to as int)
    } else {
        after == before
    }
}

/// `after` is `before` without the text between the two bounds, and with
/// the lines that are left when that text goes.
pub open spec fn removed_from(
    before: &PieceTable,
    after: &PieceTable,
    start: CharBound,
    end: CharBound,
) -> bool {
    let from = span_start(start, before@.len());
    let to = span_end(end, before@.len());
    &&& removed(before@, after@, start, end)
    &&& after.spec_len_lines() == if from < to {
        before.lines_kept(from as int, to as int)
    } else {
        before.spec_len_lines()
    }
    &&& after.spec_buffers() == before.spec_buffers()
    &&& if from < to {
        pieces_removed(before, after, from as int, to as int)
    } else {
        after.spec_pieces() == before.spec_pieces()
    }
}

/// How the pieces `now` come from the pieces `was` when the chars go from
/// char `sc` of piece `sp` up to char `ec` of piece `ep`: the pieces before
/// `sp` and those after `ep` stay; of `sp` its part before `sc` is left,
/// unless that is nothing, and of `ep` its part from `ec` on, unless that
/// is nothing; the pieces between them are gone.
pub open spec fn pieces_left(
    bufs: &Buffers,
    was: Seq<Piece>,
    now: Seq<Piece>,
    sp: int,
    sc: int,
    ep: int,
    ec: int,
) -> bool {
    let left: int = if sc == 0 {
        0
    } else {
        1
    };
    let right: int = if ec == was[ep].len_chars {
        0
    } else {
        1
    };
    &&& now.len() == was.len() - (ep - sp + 1) + left + right
    &&& now.subrange(0, sp) == was.subrange(0, sp)
    &&& now.subrange(sp + left + right, now.len() as int) == was.subrange(
        ep + 1,
        was.len() as int,
    )
    &&& (left == 1 ==> part_before(bufs, was[sp], sc, now[sp]))
    &&& (left == 1 && sc == was[sp].len_chars ==> now[sp] == was[sp])
    &&& (right == 1 ==> part_after(bufs, was[ep], ec, now[sp + left]))
}

/// How the pieces of `new` come from those of `old` when the chars from
/// index `start` up to index `end` go.
pub open spec fn pieces_removed(old: &PieceTable, new: &PieceTable, start: int, end: int) -> bool {
    pieces_left(
        &old.spec_buffers(),
        old.spec_pieces(),
        new.spec_pieces(),
        old.spec_place(start).0,
        old.spec_place(start).1,
        old.spec_place(end).0,
        old.spec_place(end).1,
    )
}

/// A whole piece is its part before its end.
pub proof fn lemma_whole_is_part(bufs: &Buffers, p: Piece)
    requires
        piece_ok(bufs, p),
    ensures
        part_before(bufs, p, p.len_chars as int, p),
{
    let chars = piece_chars(bufs, p);
    lemma_piece_len_bytes(bufs, p);
    assert(chars.subrange(0, chars.len() as int) =~= chars);
}

/// The pieces that are left when chars go from within one piece.
pub proof fn lemma_left_within(
    bufs: &Buffers,
    was: Seq<Piece>,
    now: Seq<Piece>,
    i: int,
    sc: int,
    ec: int,
)
    requires
        0 <= i < was.len(),
        0 <= sc < ec <= was[i].len_chars,
        sc == 0 && ec == was[i].len_chars ==> now == was.remove(i),
        sc == 0 && ec < was[i].len_chars ==> now == was.update(i, now[i]) && part_after(
            bufs,
            was[i],
            ec,
            now[i],
        ),
        sc > 0 && ec == was[i].len_chars ==> now == was.update(i, now[i]) && part_before(
            bufs,
            was[i],
            sc,
            now[i],
        ),
        sc > 0 && ec < was[i].len_chars ==> now == was.update(i, now[i]).insert(i + 1, now[i + 1])
            && part_before(bufs, was[i], sc, now[i]) && part_after(bufs, was[i], ec, now[i + 1]),
    ensures
        pieces_left(bufs, was, now, i, sc, i, ec),
{
    let left: int = if sc == 0 {
        0
    } else {
        1
    };
    let right: int = if ec == was[i].len_chars {
        0
    } else {
        1
    };
    assert(now.len() == was.len() - 1 + left + right);
    assert(now.subrange(0, i) =~= was.subrange(0, i));
    assert(now.subrange(i + left + right, now.len() as int) =~= was.subrange(
        i + 1,
        was.len() as int,
    ));
}

/// The pieces that are left when chars go from one piece up to a later
/// one: after the start of the later piece went, then the pieces between
/// the two, then the end of the earlier piece.
pub proof fn lemma_left_span(
    bufs: &Buffers,
    was: Seq<Piece>,
    t1: Seq<Piece>,
    t2: Seq<Piece>,
    now: Seq<Piece>,
    sp: int,
    sc: int,
    ep: int,
    ec: int,
)
    requires
        0 <= sp < ep < was.len(),
        0 <= sc <= was[sp].len_chars,
        0 < ec <= was[ep].len_chars,
        piece_ok(bufs, was[sp]),
        ec == was[ep].len_chars ==> t1 == was.remove(ep),
        ec < was[ep].len_chars ==> t1 == was.update(ep, t1[ep]) && part_after(
            bufs,
            was[ep],
            ec,
            t1[ep],
        ),
        t2 == t1.subrange(0, sp + 1) + t1.subrange(ep, t1.len() as int),
        sc == 0 ==> now == t2.remove(sp),
        0 < sc < was[sp].len_chars ==> now == t2.update(sp, now[sp]) && part_before(
            bufs,
            was[sp],
            sc,
            now[sp],
        ),
        0 < sc && sc == was[sp].len_chars ==> now == t2,
    ensures
        pieces_left(bufs, was, now, sp, sc, ep, ec),
{
    let left: int = if sc == 0 {
        0
    } else {
        1
    };
    let right: int = if ec == was[ep].len_chars {
        0
    } else {
        1
    };
    lemma_whole_is_part(bufs, was[sp]);
    assert(t1.len() == was.len() - 1 + right);
    assert(t2.len() == sp + 1 + (t1.len() - ep));
    assert(t2[sp] == was[sp]);
    assert(now.len() == was.len() - (ep - sp + 1) + left + right);
    assert(now.subrange(0, sp) =~= was.subrange(0, sp));
    assert(now.subrange(sp + left + right, now.len() as int) =~= was.subrange(
        ep + 1,
        was.len() as int,
    ));
    if right == 1 {
        assert(t2[sp + 1] == t1[ep]);
        assert(now[sp + left] == t1[ep]);
    }
}

/// Cutting out the end of a range, then its middle, then its start, cuts
/// out the range.
pub proof fn lemma_cut_out_thrice(text: Seq<char>, start: int, mid1: int, mid2: int, end: int)
    requires
        0 <= start <= mid1 <= mid2 <= end <= text.len(),
    ensures
        cut_out(cut_out(cut_out(text, mid2, end), mid1, mid2), start, mid1) == cut_out(
            text,
            start,
            end,
        ),
{
    let one = cut_out(text, mid2, end);
    let two = cut_out(one, mid1, mid2);
    assert(cut_out(two, start, mid1) =~= cut_out(text, start, end));
}

/// The cached length in bytes of a piece that fits the buffers is the
/// length of its text in UTF-8.
pub proof fn lemma_piece_len_bytes(bufs: &Buffers, p: Piece)
    requires
        piece_ok(bufs, p),
    ensures
        p.len_bytes == utf8_len(piece_chars(bufs, p)),
        p.len_chars <= p.len_bytes,
{
    encode_utf8_valid_utf8(bufs.chars(p.buffer));
    lemma_range_valid(bufs.bytes(p.buffer), p.start as int, p.spec_end());
    decode_utf8_encode_utf8(piece_bytes(bufs, p));
    lemma_utf8_len_bounds(piece_chars(bufs, p));
}

/// A piece within the bytes of another holds no more line breaks.
pub proof fn lemma_part_breaks(bufs: &Buffers, p: Piece, q: Piece)
    requires
        q.buffer == p.buffer,
        p.start <= q.start,
        q.spec_end() <= p.spec_end(),
    ensures
        piece_breaks(bufs, q).len() <= piece_breaks(bufs, p).len(),
{
    let reg = bufs.registry(p.buffer);
    lemma_within_narrow(
        reg,
        p.start as int,
        p.spec_end(),
        q.start as int,
        q.spec_end(),
        reg.len() as int,
    );
}

/// What one piece has of the counters of a consistent table.
pub(crate) proof fn lemma_piece_share(t: PieceTable, i: int)
    requires
        t.wf(),
        0 <= i < t.pieces@.len(),
    ensures
        t.pieces@[i].len_chars <= t.len_chars,
        t.pieces@[i].len_bytes <= t.len_bytes,
        piece_breaks(&t.buffers, t.pieces@[i]).len() < t.len_lines,
        t.pieces@[i].len_bytes == utf8_len(piece_chars(&t.buffers, t.pieces@[i])),
        t.chars_before(i) + t.pieces@[i].len_chars == t.chars_before(i + 1),
        t.chars_before(i + 1) <= t@.len(),
{
    let bufs = t.buffers;
    let p = t.pieces@[i];
    assert(piece_ok(&bufs, p));
    lemma_piece_len_bytes(&bufs, p);
    lemma_doc_at(&bufs, t.pieces@, i);
    lemma_total_at(&bufs, t.pieces@, i);
    let head = doc(&bufs, t.pieces@.subrange(0, i));
    let rest = doc(&bufs, t.pieces@.subrange(i + 1, t.pieces@.len() as int));
    lemma_encode_concat(head, piece_chars(&bufs, p));
    lemma_encode_concat(head + piece_chars(&bufs, p), rest);
}

/// A table in which the pieces from `a` up to `b` were replaced by the
/// pieces `mid`, whose text is the text of the replaced ones without its
/// chars from `x` up to `y`, is consistent, and its text is the old text
/// without those chars.
#[verifier::rlimit(40)]
pub(crate) proof fn lemma_window(
    t0: PieceTable,
    t1: PieceTable,
    a: int,
    b: int,
    mid: Seq<Piece>,
    x: int,
    y: int,
)
    requires
        t0.wf(),
        0 <= a <= b <= t0.pieces@.len(),
        t1.buffers == t0.buffers,
        t1.pieces@ == t0.pieces@.subrange(0, a) + mid + t0.pieces@.subrange(
            b,
            t0.pieces@.len() as int,
        ),
        forall|k: int| 0 <= k < mid.len() ==> piece_ok(&t0.buffers, #[trigger] mid[k]),
        0 <= x <= y <= doc(&t0.buffers, t0.pieces@.subrange(a, b)).len(),
        doc(&t0.buffers, mid) == cut_out(doc(&t0.buffers, t0.pieces@.subrange(a, b)), x, y),
        break_total(&t0.buffers, mid) <= break_total(&t0.buffers, t0.pieces@.subrange(a, b)),
        t1.len_chars == t0.len_chars - (y - x),
        t1.len_bytes == t0.len_bytes - utf8_len(
            doc(&t0.buffers, t0.pieces@.subrange(a, b)).subrange(x, y),
        ),
        t1.len_lines == t0.len_lines - (break_total(&t0.buffers, t0.pieces@.subrange(a, b))
            - break_total(&t0.buffers, mid)),
        t1.last_insert == t0.last_insert,
        t1.contiguous == t0.contiguous,
        t0.last_piece() is Some ==> t0.last_piece()->0 < a,
    ensures
        t1.wf(),
        t1@ == cut_out(t0@, t0.chars_before(a) + x, t0.chars_before(a) + y),
        t1.spec_len_lines() == t0.spec_len_lines() - (break_total(
            &t0.buffers,
            t0.pieces@.subrange(a, b),
        ) - break_total(&t0.buffers, mid)),
        t1.pieces@.subrange(0, a) == t0.pieces@.subrange(0, a),
        t0.chars_before(a) + y <= t0@.len(),
{
    let bufs = t0.buffers;
    let pieces0 = t0.pieces@;
    let pieces1 = t1.pieces@;
    let pre = pieces0.subrange(0, a);
    let win = pieces0.subrange(a, b);
    let post = pieces0.subrange(b, pieces0.len() as int);
    lemma_splice(&bufs, pieces0, a, b, mid);
    lemma_cut_in_middle(doc(&bufs, pre), doc(&bufs, win), doc(&bufs, post), x, y);
    assert(t1.last_insert_ok()) by {
        if t0.last_piece() is Some {
            let at = t0.last_piece()->0 as int;
            assert(pieces1[at] == pieces0[at]);
            assert(pieces1.subrange(0, at + 1) =~= pieces0.subrange(0, at + 1));
        }
    }
}

/// The text and the line breaks of a list of pieces, and of the list in
/// which the pieces from `a` up to `b` are replaced by the pieces `mid`.
#[verifier::rlimit(40)]
pub proof fn lemma_splice(bufs: &Buffers, pieces: Seq<Piece>, a: int, b: int, mid: Seq<Piece>)
    requires
        0 <= a <= b <= pieces.len(),
        forall|k: int| 0 <= k < pieces.len() ==> piece_ok(bufs, #[trigger] pieces[k]),
        forall|k: int| 0 <= k < mid.len() ==> piece_ok(bufs, #[trigger] mid[k]),
    ensures
        ({
            let pre = pieces.subrange(0, a);
            let win = pieces.subrange(a, b);
            let post = pieces.subrange(b, pieces.len() as int);
            let spliced = pre + mid + post;
            &&& doc(bufs, pieces) == doc(bufs, pre) + doc(bufs, win) + doc(bufs, post)
            &&& doc(bufs, spliced) == doc(bufs, pre) + doc(bufs, mid) + doc(bufs, post)
            &&& break_total(bufs, pieces) == break_total(bufs, pre) + break_total(bufs, win)
                + break_total(bufs, post)
            &&& break_total(bufs, spliced) == break_total(bufs, pre) + break_total(bufs, mid)
                + break_total(bufs, post)
            &&& spliced.subrange(0, a) == pre
            &&& forall|k: int| 0 <= k < spliced.len() ==> piece_ok(bufs, #[trigger] spliced[k])
        }),
{
    let pre = pieces.subrange(0, a);
    let win = pieces.subrange(a, b);
    let post = pieces.subrange(b, pieces.len() as int);
    let spliced = pre + mid + post;
    assert(spliced.subrange(0, a) =~= pre);
    assert(pieces =~= pre + win + post);
    lemma_doc_concat(bufs, pre + win, post);
    lemma_doc_concat(bufs, pre, win);
    lemma_total_concat(bufs, pre + win, post);
    lemma_total_concat(bufs, pre, win);
    lemma_doc_concat(bufs, pre + mid, post);
    lemma_doc_concat(bufs, pre, mid);
    lemma_total_concat(bufs, pre + mid, post);
    lemma_total_concat(bufs, pre, mid);
    assert forall|k: int| 0 <= k < spliced.len() implies piece_ok(bufs, #[trigger] spliced[k]) by {
        if k < a {
            assert(spliced[k] == pieces[k]);
        } else if k < a + mid.len() {
            assert(spliced[k] == mid[k - a]);
        } else {
            assert(spliced[k] == pieces[k - mid.len() + (b - a)]);
        }
    }
}

/// Cutting chars out of the middle part of a text made of three parts.
pub proof fn lemma_cut_in_middle(
    front: Seq<char>,
    middle: Seq<char>,
    back: Seq<char>,
    x: int,
    y: int,
)
    requires
        0 <= x <= y <= middle.len(),
    ensures
        front + cut_out(middle, x, y) + back == cut_out(
            front + middle + back,
            front.len() + x,
            front.len() + y,
        ),
        utf8_len(front + cut_out(middle, x, y) + back) == utf8_len(front + middle + back)
            - utf8_len(middle.subrange(x, y)),
{
    let head = front + middle.subrange(0, x);
    let gone = middle.subrange(x, y);
    let rest = middle.subrange(y, middle.len() as int) + back;
    let whole = front + middle + back;
    let less = front + cut_out(middle, x, y) + back;
    assert(whole =~= head + gone + rest);
    assert(less =~= head + rest);
    assert(less =~= cut_out(whole, front.len() + x, front.len() + y));
    lemma_encode_concat(head, gone);
    lemma_encode_concat(head + gone, rest);
    lemma_encode_concat(head, rest);
}

/// Two tables that share their first `a` pieces and their buffers have as
/// many chars before each of those pieces, and before the next one.
pub(crate) proof fn lemma_prefix_same(t0: PieceTable, t1: PieceTable, a: int, k: int)
    requires
        0 <= k <= a <= t0.pieces@.len(),
        a <= t1.pieces@.len(),
        t1.buffers == t0.buffers,
        t1.pieces@.subrange(0, a) == t0.pieces@.subrange(0, a),
    ensures
        t1.chars_before(k) == t0.chars_before(k),
        k < a ==> t1.pieces@[k] == t0.pieces@[k],
{
    assert(t1.pieces@.subrange(0, k) =~= t1.pieces@.subrange(0, a).subrange(0, k));
    assert(t0.pieces@.subrange(0, k) =~= t0.pieces@.subrange(0, a).subrange(0, k));
    if k < a {
        assert(t1.pieces@[k] == t1.pieces@.subrange(0, a)[k]);
        assert(t0.pieces@[k] == t0.pieces@.subrange(0, a)[k]);
    }
}

/// What the pieces from `a` up to `k` have of the counters of a consistent
/// table.
pub(crate) proof fn lemma_window_share(t: PieceTable, a: int, k: int)
    requires
        t.wf(),
        0 <= a <= k <= t.pieces@.len(),
    ensures
        doc(&t.buffers, t.pieces@.subrange(a, k)).len() <= t.len_chars,
        utf8_len(doc(&t.buffers, t.pieces@.subrange(a, k))) <= t.len_bytes,
        break_total(&t.buffers, t.pieces@.subrange(a, k)) < t.len_lines,
        t.chars_before(a) + doc(&t.buffers, t.pieces@.subrange(a, k)).len() == t.chars_before(k),
        t.chars_before(k) <= t@.len(),
{
    let bufs = t.buffers;
    let pieces = t.pieces@;
    let pre = pieces.subrange(0, a);
    let win = pieces.subrange(a, k);
    let post = pieces.subrange(k, pieces.len() as int);
    assert(pieces =~= pre + win + post);
    assert(pieces.subrange(0, k) =~= pre + win);
    lemma_doc_concat(&bufs, pre + win, post);
    lemma_doc_concat(&bufs, pre, win);
    lemma_total_concat(&bufs, pre + win, post);
    lemma_total_concat(&bufs, pre, win);
    lemma_encode_concat(doc(&bufs, pre), doc(&bufs, win));
    lemma_encode_concat(doc(&bufs, pre) + doc(&bufs, win), doc(&bufs, post));
}

/// The counters of the pieces from `a` up to `k + 1` are those of the
/// pieces from `a` up to `k` and those of piece `k`.
pub(crate) proof fn lemma_window_step(t: PieceTable, a: int, k: int)
    requires
        t.wf(),
        0 <= a <= k < t.pieces@.len(),
    ensures
        doc(&t.buffers, t.pieces@.subrange(a, k + 1)).len() == doc(
            &t.buffers,
            t.pieces@.subrange(a, k),
        ).len() + t.pieces@[k].len_chars,
        utf8_len(doc(&t.buffers, t.pieces@.subrange(a, k + 1))) == utf8_len(
            doc(&t.buffers, t.pieces@.subrange(a, k)),
        ) + t.pieces@[k].len_bytes,
        break_total(&t.buffers, t.pieces@.subrange(a, k + 1)) == break_total(
            &t.buffers,
            t.pieces@.subrange(a, k),
        ) + piece_breaks(&t.buffers, t.pieces@[k]).len(),
{
    let bufs = t.buffers;
    let pieces = t.pieces@;
    let win = pieces.subrange(a, k);
    let p = pieces[k];
    assert(piece_ok(&bufs, p));
    assert(pieces.subrange(a, k + 1) =~= win + seq![p]);
    lemma_doc_concat(&bufs, win, seq![p]);
    lemma_total_concat(&bufs, win, seq![p]);
    lemma_doc_one(&bufs, p);
    lemma_total_one(&bufs, p);
    lemma_piece_len_bytes(&bufs, p);
    lemma_encode_concat(doc(&bufs, win), piece_chars(&bufs, p));
}

/// Pieces without text hold no line breaks.
pub proof fn lemma_no_text_no_breaks(bufs: &Buffers, pieces: Seq<Piece>)
    requires
        forall|i: int| 0 <= i < pieces.len() ==> piece_ok(bufs, #[trigger] pieces[i]),
        doc(bufs, pieces).len() == 0,
    ensures
        break_total(bufs, pieces) == 0,
    decreases pieces.len(),
{
    if pieces.len() > 0 {
        let p = pieces.last();
        let reg = bufs.registry(p.buffer);
        assert(pieces =~= pieces.drop_last() + seq![p]);
        lemma_doc_concat(bufs, pieces.drop_last(), seq![p]);
        lemma_doc_one(bufs, p);
        assert(piece_ok(bufs, p));
        lemma_piece_len_bytes(bufs, p);
        assert(utf8_len(piece_chars(bufs, p)) == 0);
        lemma_within_skip(
            reg,
            p.start as int,
            p.spec_end(),
            0,
            reg.len() as int,
        );
        assert forall|i: int| 0 <= i < pieces.drop_last().len() implies piece_ok(
            bufs,
            #[trigger] pieces.drop_last()[i],
        ) by {
            assert(pieces.drop_last()[i] == pieces[i]);
        }
        lemma_no_text_no_breaks(bufs, pieces.drop_last());
    }
}

/// A consistent table stays so when it forgets the last insertion.
pub(crate) proof fn lemma_forget_last(t0: PieceTable, t1: PieceTable)
    requires
        t0.wf(),
        t1.buffers == t0.buffers,
        t1.pieces == t0.pieces,
        t1.len_bytes == t0.len_bytes,
        t1.len_chars == t0.len_chars,
        t1.len_lines == t0.len_lines,
        t1.last_insert == None::<(usize, usize)>,
    ensures
        t1.wf(),
        t1@ == t0@,
        t1.spec_len_lines() == t0.spec_len_lines(),
{
}

/// Where the places of two char indices lie, one index before the other.
#[verifier::rlimit(40)]
pub(crate) proof fn lemma_places_ordered(
    t: PieceTable,
    start: int,
    sp: int,
    sc: int,
    end: int,
    ep: int,
    ec: int,
)
    requires
        t.wf(),
        0 <= start < end <= t@.len(),
        start == 0 ==> sp == 0 && sc == 0,
        start > 0 ==> 0 <= sp < t.pieces@.len() && 0 < sc <= t.spec_chunks()[sp].len()
            && t.chars_before(sp) + sc == start,
        0 <= ep < t.pieces@.len(),
        0 < ec <= t.spec_chunks()[ep].len(),
        t.chars_before(ep) + ec == end,
        t.last_end() is Some ==> t.last_end()->0 < start,
    ensures
        sp <= ep,
        t.chars_before(sp) + sc == start,
        0 <= sc <= t.pieces@[sp].len_chars,
        ec <= t.pieces@[ep].len_chars,
        sp == ep ==> sc < ec,
        sp < ep ==> t.chars_before(sp + 1) <= t.chars_before(ep),
        start <= t.chars_before(sp + 1),
        t.last_before(sp),
{
    let bufs = t.buffers;
    lemma_at_start(t);
    assert(piece_ok(&bufs, t.pieces@[ep]));
    lemma_doc_at(&bufs, t.pieces@, ep);
    if sp > ep {
        lemma_ahead(&bufs, t.pieces@, ep + 1, sp);
    }
    assert(sp <= ep);
    assert(piece_ok(&bufs, t.pieces@[sp]));
    lemma_doc_at(&bufs, t.pieces@, sp);
    if sp < ep {
        lemma_ahead(&bufs, t.pieces@, sp + 1, ep);
    }
    if t.last_piece() is Some {
        let at = t.last_piece()->0 as int;
        if at >= sp {
            lemma_ahead(&bufs, t.pieces@, sp + 1, at + 1);
        }
    }
}

/// Before the first char of a piece lies none of its line breaks, and
/// before its end lie all of them; after its end lies none, and from its
/// first char on lie all.
pub(crate) proof fn lemma_cut_edges(t: PieceTable, i: int)
    requires
        t.wf(),
        0 <= i < t.pieces@.len(),
    ensures
        t.cut_byte(i, 0) == t.pieces@[i].start,
        t.cut_byte(i, t.pieces@[i].len_chars as int) == t.pieces@[i].spec_end(),
        t.breaks_before_cut(i, 0) == 0,
        t.breaks_before_cut(i, t.pieces@[i].len_chars as int) == t.breaks_held(i),
        t.breaks_after_cut(i, 0) == t.breaks_held(i),
        t.breaks_after_cut(i, t.pieces@[i].len_chars as int) == 0,
{
    let bufs = t.buffers;
    let p = t.pieces@[i];
    let reg = bufs.registry(p.buffer);
    let chars = piece_chars(&bufs, p);
    assert(piece_ok(&bufs, p));
    lemma_piece_len_bytes(&bufs, p);
    assert(chars.subrange(0, chars.len() as int) =~= chars);
    assert(chars.subrange(0, 0) =~= Seq::<char>::empty());
    lemma_within_skip(reg, p.start as int, p.start as int, 0, reg.len() as int);
    lemma_within_skip(reg, p.spec_end(), p.spec_end(), 0, reg.len() as int);
}

/// A table holds the line breaks of the pieces before piece `sp`, of
/// `sp`, of the pieces between `sp` and `ep`, of `ep`, and of the pieces
/// after `ep`; where `sp` is `ep`, those of the pieces before it, its own,
/// and those of the pieces after it.
#[verifier::rlimit(40)]
pub(crate) proof fn lemma_total_parts(t: PieceTable, sp: int, ep: int)
    requires
        0 <= sp <= ep < t.pieces@.len(),
    ensures
        t.spec_len_lines() == 1 + break_total(&t.buffers, t.pieces@.subrange(0, sp))
            + t.breaks_held(sp) + (if sp < ep {
            break_total(&t.buffers, t.pieces@.subrange(sp + 1, ep)) + t.breaks_held(ep)
        } else {
            0
        }) + break_total(&t.buffers, t.pieces@.subrange(ep + 1, t.pieces@.len() as int)),
{
    let bufs = t.buffers;
    let pieces = t.pieces@;
    let all = pieces.len() as int;
    lemma_total_at(&bufs, pieces, sp);
    if sp < ep {
        let rest = pieces.subrange(sp + 1, all);
        lemma_total_at(&bufs, rest, ep - sp - 1);
        assert(rest.subrange(0, ep - sp - 1) =~= pieces.subrange(sp + 1, ep));
        assert(rest.subrange(ep - sp, rest.len() as int) =~= pieces.subrange(ep + 1, all));
        assert(rest[ep - sp - 1] == pieces[ep]);
    }
}

/// What is left of a piece when chars go from its middle: the part
/// `before` the chars and the part `after` them, where `rest` is the piece
/// from the first of those chars on. The two parts fit the buffers, their
/// text is that of the piece without those chars, and they hold no more
/// line breaks than the piece.
pub proof fn lemma_two_left(
    bufs: &Buffers,
    p: Piece,
    before: Piece,
    rest: Piece,
    after: Piece,
    sc: int,
    ec: int,
)
    requires
        bufs.wf(),
        piece_ok(bufs, p),
        piece_ok(bufs, before),
        piece_ok(bufs, rest),
        piece_ok(bufs, after),
        0 < sc < ec < piece_chars(bufs, p).len(),
        before.buffer == p.buffer,
        rest.buffer == p.buffer,
        after.buffer == p.buffer,
        before.start == p.start,
        before.spec_end() == rest.start,
        rest.spec_end() == p.spec_end(),
        after.spec_end() == p.spec_end(),
        before.len_bytes == utf8_len(piece_chars(bufs, p).subrange(0, sc)),
        after.start == p.start + utf8_len(piece_chars(bufs, p).subrange(0, ec)),
        piece_chars(bufs, before) == piece_chars(bufs, p).subrange(0, sc),
        piece_chars(bufs, after) == piece_chars(bufs, p).subrange(
            ec,
            piece_chars(bufs, p).len() as int,
        ),
    ensures
        before.spec_end() <= after.start,
        after.start - before.spec_end() == utf8_len(piece_chars(bufs, p).subrange(sc, ec)),
        doc(bufs, seq![p]) == piece_chars(bufs, p),
        doc(bufs, seq![before, after]) == cut_out(piece_chars(bufs, p), sc, ec),
        break_total(bufs, seq![p]) == piece_breaks(bufs, p).len(),
        break_total(bufs, seq![before, after]) == piece_breaks(bufs, before).len() + piece_breaks(
            bufs,
            after,
        ).len(),
        piece_breaks(bufs, before).len() + piece_breaks(bufs, after).len() <= piece_breaks(
            bufs,
            p,
        ).len(),
{
    let chars = piece_chars(bufs, p);
    let head = chars.subrange(0, sc);
    let gone = chars.subrange(sc, ec);
    assert(chars.subrange(0, ec) =~= head + gone);
    lemma_encode_concat(head, gone);
    lemma_cut_breaks(bufs, p, before, rest);
    lemma_part_breaks(bufs, rest, after);
    let mid = seq![before, after];
    assert(mid =~= seq![before] + seq![after]);
    lemma_doc_concat(bufs, seq![before], seq![after]);
    lemma_total_concat(bufs, seq![before], seq![after]);
    lemma_doc_one(bufs, p);
    lemma_total_one(bufs, p);
    lemma_doc_one(bufs, before);
    lemma_total_one(bufs, before);
    lemma_doc_one(bufs, after);
    lemma_total_one(bufs, after);
}

/// The line breaks of a piece before one of its chars and those from a
/// later char on are no more than the piece holds.
#[verifier::rlimit(40)]
pub(crate) proof fn lemma_cut_counts(t: PieceTable, i: int, n1: int, n2: int)
    requires
        t.wf(),
        0 <= i < t.pieces@.len(),
        0 <= n1 <= n2 <= t.pieces@[i].len_chars,
    ensures
        t.breaks_before_cut(i, n1) + t.breaks_after_cut(i, n2) <= t.breaks_held(i),
{
    let bufs = t.buffers;
    let p = t.pieces@[i];
    let reg = bufs.registry(p.buffer);
    let bytes = bufs.bytes(p.buffer);
    let chars = piece_chars(&bufs, p);
    assert(piece_ok(&bufs, p));
    encode_utf8_valid_utf8(bufs.chars(p.buffer));
    lemma_range_split(bytes, p.start as int, p.spec_end(), n1);
    lemma_range_split(bytes, p.start as int, p.spec_end(), n2);
    assert(chars.subrange(0, n2) =~= chars.subrange(0, n1) + chars.subrange(n1, n2));
    lemma_encode_concat(chars.subrange(0, n1), chars.subrange(n1, n2));
    lemma_within_parts(
        reg,
        p.start as int,
        t.cut_byte(i, n1),
        p.spec_end(),
        reg.len() as int,
    );
    lemma_within_narrow(
        reg,
        t.cut_byte(i, n1),
        p.spec_end(),
        t.cut_byte(i, n2),
        p.spec_end(),
        reg.len() as int,
    );
}

impl<'b> PieceTable<'b> {
    /// The pieces from index `a` on can change without harm to what is
    /// kept of the last insertion.
    pub open(crate) spec fn last_before(&self, a: int) -> bool {
        self.last_piece() is Some ==> self.last_piece()->0 < a
    }

    /// The number of line breaks that piece `i` holds.
    pub open(crate) spec fn breaks_held(&self, i: int) -> nat {
        piece_breaks(&self.buffers, self.pieces@[i]).len()
    }

    /// The byte index in its buffer at which the char of index `n` of
    /// piece `i` starts.
    pub open(crate) spec fn cut_byte(&self, i: int, n: int) -> int {
        let p = self.pieces@[i];
        p.start + utf8_len(piece_chars(&self.buffers, p).subrange(0, n))
    }

    /// The number of line breaks of piece `i` that lie wholly before its
    /// char of index `n`.
    pub open(crate) spec fn breaks_before_cut(&self, i: int, n: int) -> nat {
        let p = self.pieces@[i];
        let reg = self.buffers.registry(p.buffer);
        breaks_within(reg, p.start as int, self.cut_byte(i, n), reg.len() as int).len()
    }

    /// The number of line breaks of piece `i` that lie wholly at or after
    /// its char of index `n`.
    pub open(crate) spec fn breaks_after_cut(&self, i: int, n: int) -> nat {
        let p = self.pieces@[i];
        let reg = self.buffers.registry(p.buffer);
        breaks_within(reg, self.cut_byte(i, n), p.spec_end(), reg.len() as int).len()
    }

    /// Removes piece `piece_idx` and its text.
    #[verifier::rlimit(40)]
    pub(crate) fn remove_piece(&mut self, piece_idx: usize)
        requires
            old(self).wf(),
            piece_idx < old(self).pieces@.len(),
            old(self).last_before(piece_idx as int),
        ensures
            final(self).wf(),
            final(self).pieces@ == old(self).pieces@.remove(piece_idx as int),
            final(self).spec_contiguous() == old(self).spec_contiguous(),
            final(self).spec_unicode() == old(self).spec_unicode(),
            final(self)@ == cut_out(
                old(self)@,
                old(self).chars_before(piece_idx as int) as int,
                old(self).chars_before(piece_idx + 1) as int,
            ),
            final(self).buffers == old(self).buffers,
            final(self).last_insert == old(self).last_insert,
            final(self).spec_len_lines() == old(self).spec_len_lines() - old(self).breaks_held(
                piece_idx as int,
            ),
            final(self).pieces@.subrange(0, piece_idx as int) == old(self).pieces@.subrange(
                0,
                piece_idx as int,
            ),
            final(self).pieces@.len() == old(self).pieces@.len() - 1,
    {
        let piece = self.pieces[piece_idx];
        let lbs: usize = self.count_piece_line_breaks(piece_idx);
        proof {
            lemma_piece_share(*self, piece_idx as int);
        }
        self.len_bytes = self.len_bytes - piece.len_bytes;
        self.len_chars = self.len_chars - piece.len_chars;
        self.len_lines = self.len_lines - lbs;
        self.pieces.remove(piece_idx);
        proof {
            let bufs = old(self).buffers;
            let i = piece_idx as int;
            let pieces0 = old(self).pieces@;
            let chars = piece_chars(&bufs, piece);
            assert(pieces0.subrange(i, i + 1) =~= seq![piece]);
            lemma_doc_one(&bufs, piece);
            lemma_total_one(&bufs, piece);
            let none = Seq::<Piece>::empty();
            assert(doc(&bufs, none) =~= cut_out(chars, 0, chars.len() as int));
            assert(chars.subrange(0, chars.len() as int) =~= chars);
            assert(self.pieces@ =~= pieces0.subrange(0, i) + none + pieces0.subrange(
                i + 1,
                pieces0.len() as int,
            ));
            lemma_window(*old(self), *self, i, i + 1, none, 0, chars.len() as int);
        }
    }

    /// Puts `kept` in the place of piece `piece_idx`: a piece within that
    /// piece, whose text is the text of that piece without its chars from
    /// `x` up to `y`.
    #[verifier::rlimit(40)]
    pub(crate) fn shrink_piece(
        &mut self,
        piece_idx: usize,
        kept: Piece,
        Ghost(x): Ghost<int>,
        Ghost(y): Ghost<int>,
    )
        requires
            old(self).wf(),
            piece_idx < old(self).pieces@.len(),
            old(self).last_before(piece_idx as int),
            piece_ok(&old(self).buffers, kept),
            kept.buffer == old(self).pieces@[piece_idx as int].buffer,
            old(self).pieces@[piece_idx as int].start <= kept.start,
            kept.spec_end() <= old(self).pieces@[piece_idx as int].spec_end(),
            0 <= x <= y <= old(self).pieces@[piece_idx as int].len_chars,
            piece_chars(&old(self).buffers, kept) == cut_out(
                piece_chars(&old(self).buffers, old(self).pieces@[piece_idx as int]),
                x,
                y,
            ),
        ensures
            final(self).wf(),
            final(self).pieces@ == old(self).pieces@.update(piece_idx as int, kept),
            final(self).spec_contiguous() == old(self).spec_contiguous(),
            final(self).spec_unicode() == old(self).spec_unicode(),
            final(self)@ == cut_out(
                old(self)@,
                old(self).chars_before(piece_idx as int) + x,
                old(self).chars_before(piece_idx as int) + y,
            ),
            final(self).buffers == old(self).buffers,
            final(self).last_insert == old(self).last_insert,
            final(self).spec_len_lines() == old(self).spec_len_lines() - old(self).breaks_held(
                piece_idx as int,
            ) + piece_breaks(&old(self).buffers, kept).len(),
            final(self).pieces@.subrange(0, piece_idx as int) == old(self).pieces@.subrange(
                0,
                piece_idx as int,
            ),
            final(self).pieces@.len() == old(self).pieces@.len(),
    {
        let piece = self.pieces[piece_idx];
        let had: usize = self.count_piece_line_breaks(piece_idx);
        let has: usize = self.count_breaks(kept);
        proof {
            let bufs = old(self).buffers;
            let chars = piece_chars(&bufs, piece);
            assert(piece_ok(&bufs, piece));
            lemma_piece_share(*self, piece_idx as int);
            lemma_part_breaks(&bufs, piece, kept);
            lemma_piece_len_bytes(&bufs, kept);
            let head = chars.subrange(0, x);
            let gone = chars.subrange(x, y);
            let rest = chars.subrange(y, chars.len() as int);
            assert(chars =~= head + gone + rest);
            lemma_encode_concat(head, gone);
            lemma_encode_concat(head + gone, rest);
            lemma_encode_concat(head, rest);
        }
        self.len_bytes = self.len_bytes - (piece.len_bytes - kept.len_bytes);
        self.len_chars = self.len_chars - (piece.len_chars - kept.len_chars);
        self.len_lines = self.len_lines - (had - has);
        self.pieces.set(piece_idx, kept);
        proof {
            let bufs = old(self).buffers;
            let i = piece_idx as int;
            let pieces0 = old(self).pieces@;
            assert(pieces0.subrange(i, i + 1) =~= seq![piece]);
            lemma_doc_one(&bufs, piece);
            lemma_total_one(&bufs, piece);
            lemma_doc_one(&bufs, kept);
            lemma_total_one(&bufs, kept);
            assert(self.pieces@ =~= pieces0.subrange(0, i) + seq![kept] + pieces0.subrange(
                i + 1,
                pieces0.len() as int,
            ));
            lemma_window(*old(self), *self, i, i + 1, seq![kept], x, y);
        }
    }

    /// Removes the end of piece `piece_idx`, from its char of index
    /// `start_char_idx` on.
    #[verifier::rlimit(40)]
    pub(crate) fn trim_piece_end(&mut self, piece_idx: usize, start_char_idx: usize)
        requires
            old(self).wf(),
            piece_idx < old(self).pieces@.len(),
            start_char_idx <= old(self).pieces@[piece_idx as int].len_chars,
            old(self).last_before(piece_idx as int),
        ensures
            final(self).wf(),
            start_char_idx == 0 ==> final(self).pieces@ == old(self).pieces@.remove(
                piece_idx as int,
            ),
            0 < start_char_idx < old(self).pieces@[piece_idx as int].len_chars ==> final(self).pieces@ == old(self).pieces@.update(
                piece_idx as int,
                final(self).pieces@[piece_idx as int],
            ) && part_before(
                &old(self).buffers,
                old(self).pieces@[piece_idx as int],
                start_char_idx as int,
                final(self).pieces@[piece_idx as int],
            ),
            start_char_idx == old(self).pieces@[piece_idx as int].len_chars && start_char_idx > 0
                ==> final(self).pieces@ == old(self).pieces@,
            final(self).spec_contiguous() == old(self).spec_contiguous(),
            final(self).spec_unicode() == old(self).spec_unicode(),
            final(self)@ == cut_out(
                old(self)@,
                old(self).chars_before(piece_idx as int) + start_char_idx,
                old(self).chars_before(piece_idx + 1) as int,
            ),
            final(self).buffers == old(self).buffers,
            final(self).last_insert == old(self).last_insert,
            final(self).spec_len_lines() == old(self).spec_len_lines() - old(self).breaks_held(
                piece_idx as int,
            ) + old(self).breaks_before_cut(piece_idx as int, start_char_idx as int),
            final(self).pieces@.subrange(0, piece_idx as int) == old(self).pieces@.subrange(
                0,
                piece_idx as int,
            ),
            final(self).pieces@.len() >= old(self).pieces@.len() - 1,
    {
        let piece = self.pieces[piece_idx];
        proof {
            lemma_piece_share(*self, piece_idx as int);
            lemma_cut_edges(*self, piece_idx as int);
        }
        if start_char_idx == 0 {
            self.remove_piece(piece_idx);
        } else if start_char_idx < piece.len_chars {
            let halves = self.cut_piece(piece_idx, start_char_idx);
            proof {
                let chars = piece_chars(&self.buffers, piece);
                assert(chars.subrange(0, start_char_idx as int) =~= cut_out(
                    chars,
                    start_char_idx as int,
                    chars.len() as int,
                ));
                assert(piece_ok(&self.buffers, piece));
            }
            self.shrink_piece(
                piece_idx,
                halves.0,
                Ghost(start_char_idx as int),
                Ghost(piece.len_chars as int),
            );
        } else {
            proof {
                let at = old(self).chars_before(piece_idx + 1) as int;
                assert(old(self)@ =~= cut_out(old(self)@, at, at));
                assert(self.pieces@.subrange(0, piece_idx as int) =~= old(self).pieces@.subrange(
                    0,
                    piece_idx as int,
                ));
            }
        }
    }

    /// Removes the start of piece `piece_idx`, up to its char of index
    /// `end_char_idx`.
    #[verifier::rlimit(40)]
    pub(crate) fn trim_piece_start(&mut self, piece_idx: usize, end_char_idx: usize)
        requires
            old(self).wf(),
            piece_idx < old(self).pieces@.len(),
            end_char_idx <= old(self).pieces@[piece_idx as int].len_chars,
            old(self).last_before(piece_idx as int),
        ensures
            final(self).wf(),
            end_char_idx == old(self).pieces@[piece_idx as int].len_chars ==> final(self).pieces@ == old(self).pieces@.remove(piece_idx as int),
            0 < end_char_idx < old(self).pieces@[piece_idx as int].len_chars ==> final(self).pieces@ == old(self).pieces@.update(
                piece_idx as int,
                final(self).pieces@[piece_idx as int],
            ) && part_after(
                &old(self).buffers,
                old(self).pieces@[piece_idx as int],
                end_char_idx as int,
                final(self).pieces@[piece_idx as int],
            ),
            end_char_idx == 0 && end_char_idx < old(self).pieces@[piece_idx as int].len_chars
                ==> final(self).pieces@ == old(self).pieces@,
            final(self).spec_contiguous() == old(self).spec_contiguous(),
            final(self).spec_unicode() == old(self).spec_unicode(),
            final(self)@ == cut_out(
                old(self)@,
                old(self).chars_before(piece_idx as int) as int,
                old(self).chars_before(piece_idx as int) + end_char_idx,
            ),
            final(self).buffers == old(self).buffers,
            final(self).last_insert == old(self).last_insert,
            final(self).spec_len_lines() == old(self).spec_len_lines() - old(self).breaks_held(
                piece_idx as int,
            ) + old(self).breaks_after_cut(piece_idx as int, end_char_idx as int),
            final(self).pieces@.subrange(0, piece_idx as int) == old(self).pieces@.subrange(
                0,
                piece_idx as int,
            ),
            final(self).pieces@.len() >= old(self).pieces@.len() - 1,
    {
        let piece = self.pieces[piece_idx];
        proof {
            lemma_piece_share(*self, piece_idx as int);
            lemma_cut_edges(*self, piece_idx as int);
        }
        if end_char_idx == piece.len_chars {
            self.remove_piece(piece_idx);
        } else if end_char_idx > 0 {
            let halves = self.cut_piece(piece_idx, end_char_idx);
            proof {
                let chars = piece_chars(&self.buffers, piece);
                assert(chars.subrange(end_char_idx as int, chars.len() as int) =~= cut_out(
                    chars,
                    0,
                    end_char_idx as int,
                ));
                assert(piece_ok(&self.buffers, piece));
            }
            self.shrink_piece(piece_idx, halves.1, Ghost(0), Ghost(end_char_idx as int));
        } else {
            proof {
                let at = old(self).chars_before(piece_idx as int) as int;
                assert(old(self)@ =~= cut_out(old(self)@, at, at));
                assert(self.pieces@.subrange(0, piece_idx as int) =~= old(self).pieces@.subrange(
                    0,
                    piece_idx as int,
                ));
            }
        }
    }

    /// Removes the pieces from index `from` up to index `to`, and their
    /// text.
    #[verifier::rlimit(40)]
    pub(crate) fn remove_pieces(&mut self, from: usize, to: usize)
        requires
            old(self).wf(),
            from <= to <= old(self).pieces@.len(),
            old(self).last_before(from as int),
        ensures
            final(self).wf(),
            final(self).pieces@ == old(self).pieces@.subrange(0, from as int) + old(
                self,
            ).pieces@.subrange(to as int, old(self).pieces@.len() as int),
            final(self).spec_contiguous() == old(self).spec_contiguous(),
            final(self).spec_unicode() == old(self).spec_unicode(),
            final(self)@ == cut_out(
                old(self)@,
                old(self).chars_before(from as int) as int,
                old(self).chars_before(to as int) as int,
            ),
            final(self).buffers == old(self).buffers,
            final(self).last_insert == old(self).last_insert,
            final(self).spec_len_lines() == old(self).spec_len_lines() - break_total(
                &old(self).buffers,
                old(self).pieces@.subrange(from as int, to as int),
            ),
            final(self).pieces@.subrange(0, from as int) == old(self).pieces@.subrange(
                0,
                from as int,
            ),
            final(self).pieces@.len() == old(self).pieces@.len() - (to - from),
    {
        let mut chars: usize = 0;
        let mut bytes: usize = 0;
        let mut lines: usize = 0;
        let mut k: usize = from;
        proof {
            assert(self.pieces@.subrange(from as int, from as int) =~= Seq::<Piece>::empty());
        }
        while k < to
            invariant
                self.wf(),
                from <= k <= to <= self.pieces@.len(),
                chars == doc(&self.buffers, self.pieces@.subrange(from as int, k as int)).len(),
                bytes == utf8_len(doc(&self.buffers, self.pieces@.subrange(from as int, k as int))),
                lines == break_total(&self.buffers, self.pieces@.subrange(from as int, k as int)),
            decreases to - k,
        {
            let piece = self.pieces[k];
            let held: usize = self.count_piece_line_breaks(k);
            proof {
                lemma_window_step(*self, from as int, k as int);
                lemma_window_share(*self, from as int, k + 1);
            }
            chars = chars + piece.len_chars;
            bytes = bytes + piece.len_bytes;
            lines = lines + held;
            k = k + 1;
        }
        proof {
            lemma_window_share(*self, from as int, to as int);
        }
        self.len_chars = self.len_chars - chars;
        self.len_bytes = self.len_bytes - bytes;
        self.len_lines = self.len_lines - lines;
        let mut rest: Vec<Piece> = self.pieces.split_off(to);
        self.pieces.truncate(from);
        self.pieces.append(&mut rest);
        proof {
            let bufs = old(self).buffers;
            let pieces0 = old(self).pieces@;
            let win = pieces0.subrange(from as int, to as int);
            let gone = doc(&bufs, win);
            let none = Seq::<Piece>::empty();
            assert(doc(&bufs, none) =~= cut_out(gone, 0, gone.len() as int));
            assert(gone.subrange(0, gone.len() as int) =~= gone);
            assert(self.pieces@ =~= pieces0.subrange(0, from as int) + none + pieces0.subrange(
                to as int,
                pieces0.len() as int,
            ));
            lemma_window(*old(self), *self, from as int, to as int, none, 0, gone.len() as int);
        }
    }

    /// Removes from piece `piece_idx` its chars from index `start_char_idx`
    /// up to index `end_char_idx`.
    #[verifier::rlimit(40)]
    pub(crate) fn remove_within_piece(
        &mut self,
        piece_idx: usize,
        start_char_idx: usize,
        end_char_idx: usize,
    )
        requires
            old(self).wf(),
            piece_idx < old(self).pieces@.len(),
            start_char_idx < end_char_idx <= old(self).pieces@[piece_idx as int].len_chars,
            old(self).last_before(piece_idx as int),
        ensures
            final(self).wf(),
            start_char_idx == 0 && end_char_idx == old(self).pieces@[piece_idx as int].len_chars
                ==> final(self).pieces@ == old(self).pieces@.remove(piece_idx as int),
            start_char_idx == 0 && end_char_idx < old(self).pieces@[piece_idx as int].len_chars
                ==> final(self).pieces@ == old(self).pieces@.update(
                piece_idx as int,
                final(self).pieces@[piece_idx as int],
            ) && part_after(
                &old(self).buffers,
                old(self).pieces@[piece_idx as int],
                end_char_idx as int,
                final(self).pieces@[piece_idx as int],
            ),
            start_char_idx > 0 && end_char_idx == old(self).pieces@[piece_idx as int].len_chars
                ==> final(self).pieces@ == old(self).pieces@.update(
                piece_idx as int,
                final(self).pieces@[piece_idx as int],
            ) && part_before(
                &old(self).buffers,
                old(self).pieces@[piece_idx as int],
                start_char_idx as int,
                final(self).pieces@[piece_idx as int],
            ),
            start_char_idx > 0 && end_char_idx < old(self).pieces@[piece_idx as int].len_chars
                ==> final(self).pieces@ == old(self).pieces@.update(
                piece_idx as int,
                final(self).pieces@[piece_idx as int],
            ).insert(piece_idx + 1, final(self).pieces@[piece_idx + 1]) && part_before(
                &old(self).buffers,
                old(self).pieces@[piece_idx as int],
                start_char_idx as int,
                final(self).pieces@[piece_idx as int],
            ) && part_after(
                &old(self).buffers,
                old(self).pieces@[piece_idx as int],
                end_char_idx as int,
                final(self).pieces@[piece_idx + 1],
            ),
            final(self).spec_contiguous() == old(self).spec_contiguous(),
            final(self).spec_unicode() == old(self).spec_unicode(),
            final(self)@ == cut_out(
                old(self)@,
                old(self).chars_before(piece_idx as int) + start_char_idx,
                old(self).chars_before(piece_idx as int) + end_char_idx,
            ),
            final(self).buffers == old(self).buffers,
            final(self).last_insert == old(self).last_insert,
            final(self).spec_len_lines() == old(self).spec_len_lines() - old(self).breaks_held(
                piece_idx as int,
            ) + old(self).breaks_before_cut(piece_idx as int, start_char_idx as int) + old(
                self,
            ).breaks_after_cut(piece_idx as int, end_char_idx as int),
    {
        let piece = self.pieces[piece_idx];
        proof {
            lemma_piece_share(*self, piece_idx as int);
            lemma_cut_edges(*self, piece_idx as int);
        }
        if start_char_idx == 0 {
            self.trim_piece_start(piece_idx, end_char_idx);
            return;
        }
        if end_char_idx == piece.len_chars {
            self.trim_piece_end(piece_idx, start_char_idx);
            return;
        }
        self.cut_out_of_piece(piece_idx, start_char_idx, end_char_idx);
    }

    /// Removes from piece `piece_idx` its chars from index `start_char_idx`
    /// up to index `end_char_idx`, where chars are left on both sides: the
    /// piece falls into two.
    #[verifier::rlimit(40)]
    pub(crate) fn cut_out_of_piece(
        &mut self,
        piece_idx: usize,
        start_char_idx: usize,
        end_char_idx: usize,
    )
        requires
            old(self).wf(),
            piece_idx < old(self).pieces@.len(),
            0 < start_char_idx < end_char_idx < old(self).pieces@[piece_idx as int].len_chars,
            old(self).last_before(piece_idx as int),
        ensures
            final(self).wf(),
            final(self).pieces@ == old(self).pieces@.update(
                piece_idx as int,
                final(self).pieces@[piece_idx as int],
            ).insert(piece_idx + 1, final(self).pieces@[piece_idx + 1]),
            part_before(
                &old(self).buffers,
                old(self).pieces@[piece_idx as int],
                start_char_idx as int,
                final(self).pieces@[piece_idx as int],
            ),
            part_after(
                &old(self).buffers,
                old(self).pieces@[piece_idx as int],
                end_char_idx as int,
                final(self).pieces@[piece_idx + 1],
            ),
            final(self).spec_contiguous() == old(self).spec_contiguous(),
            final(self).spec_unicode() == old(self).spec_unicode(),
            final(self)@ == cut_out(
                old(self)@,
                old(self).chars_before(piece_idx as int) + start_char_idx,
                old(self).chars_before(piece_idx as int) + end_char_idx,
            ),
            final(self).buffers == old(self).buffers,
            final(self).last_insert == old(self).last_insert,
            final(self).spec_len_lines() == old(self).spec_len_lines() - old(self).breaks_held(
                piece_idx as int,
            ) + old(self).breaks_before_cut(piece_idx as int, start_char_idx as int) + old(
                self,
            ).breaks_after_cut(piece_idx as int, end_char_idx as int),
    {
        let piece = self.pieces[piece_idx];
        let first = self.cut_piece(piece_idx, start_char_idx);
        let second = self.cut_piece(piece_idx, end_char_idx);
        let before = first.0;
        let after = second.1;
        let had: usize = self.count_piece_line_breaks(piece_idx);
        let has_before: usize = self.count_breaks(before);
        let has_after: usize = self.count_breaks(after);
        proof {
            lemma_piece_share(*self, piece_idx as int);
            lemma_two_left(
                &self.buffers,
                piece,
                before,
                first.1,
                after,
                start_char_idx as int,
                end_char_idx as int,
            );
        }
        self.len_bytes = self.len_bytes - (after.start - (before.start + before.len_bytes));
        self.len_chars = self.len_chars - (end_char_idx - start_char_idx);
        self.len_lines = self.len_lines - (had - (has_before + has_after));
        assert(piece_idx + 1 <= self.pieces.len());
        self.pieces.set(piece_idx, before);
        self.pieces.insert(piece_idx + 1, after);
        proof {
            let i = piece_idx as int;
            let pieces0 = old(self).pieces@;
            let mid = seq![before, after];
            assert(pieces0.subrange(i, i + 1) =~= seq![piece]);
            assert(self.pieces@ =~= pieces0.subrange(0, i) + mid + pieces0.subrange(
                i + 1,
                pieces0.len() as int,
            ));
            lemma_window(
                *old(self),
                *self,
                i,
                i + 1,
                mid,
                start_char_idx as int,
                end_char_idx as int,
            );
        }
    }

    /// The range between two bounds as a first char index and the index
    /// after the last, neither beyond the end of the text.
    pub fn simplify_range_bounds(&self, start: CharBound, end: CharBound) -> (span: (usize, usize))
        requires
            self.wf(),
        ensures
            span.0 == span_start(start, self@.len()),
            span.1 == span_end(end, self@.len()),
    {
        let len: usize = self.len_chars;
        let first: usize = match start {
            CharBound::Included(i) => if i <= len {
                i
            } else {
                len
            },
            CharBound::Excluded(i) => if i < len {
                i + 1
            } else {
                len
            },
            CharBound::Unbounded => 0,
        };
        let after: usize = match end {
            CharBound::Included(i) => if i < len {
                i + 1
            } else {
                len
            },
            CharBound::Excluded(i) => if i <= len {
                i
            } else {
                len
            },
            CharBound::Unbounded => len,
        };
        (first, after)
    }

    /// Removes the chars from index `start` up to index `end`.
    #[verifier::rlimit(100)]
    pub fn remove_chars(&mut self, start: usize, end: usize)
        requires
            old(self).wf(),
            start < end <= old(self)@.len(),
        ensures
            final(self).wf(),
            final(self).spec_buffers() == old(self).spec_buffers(),
            final(self).spec_contiguous() == old(self).spec_contiguous(),
            final(self).spec_unicode() == old(self).spec_unicode(),
            final(self)@ == cut_out(old(self)@, start as int, end as int),
            pieces_removed(old(self), final(self), start as int, end as int),
            final(self).spec_len_lines() == old(self).lines_kept(start as int, end as int),
            final(self).spec_len_lines() <= old(self).spec_len_lines(),
            final(self).stored() == old(self).stored(),
            final(self).last_end() == if old(self).last_end() is Some && old(self).last_end()->0
                < start {
                old(self).last_end()
            } else {
                None
            },
    {
        if let Some(last) = self.last_insert {
            if last.0 >= start {
                self.last_insert = None;
                proof {
                    lemma_forget_last(*old(self), *self);
                }
            }
        }
        let ghost t0 = *self;
        let from = self.piece_at_char(start);
        let to = self.piece_at_char(end);
        let sp: usize = from.0;
        let sc: usize = from.1;
        let ep: usize = to.0;
        let ec: usize = to.1;
        proof {
            lemma_places_ordered(
                t0,
                start as int,
                sp as int,
                sc as int,
                end as int,
                ep as int,
                ec as int,
            );
            lemma_lines_kept(
                *old(self),
                start as int,
                sp as int,
                sc as int,
                end as int,
                ep as int,
                ec as int,
            );
            lemma_total_parts(t0, sp as int, ep as int);
            if start > 0 {
                lemma_place_is(*old(self), sp as int, sc as int, start as int);
            }
            lemma_place_is(*old(self), ep as int, ec as int, end as int);
            if sp == ep {
                lemma_cut_counts(t0, sp as int, sc as int, ec as int);
            } else {
                lemma_cut_counts(t0, sp as int, sc as int, t0.pieces@[sp as int].len_chars as int);
                lemma_cut_counts(t0, ep as int, 0, ec as int);
                lemma_cut_edges(t0, sp as int);
                lemma_cut_edges(t0, ep as int);
            }
        }
        if sp == ep {
            self.remove_within_piece(sp, sc, ec);
            proof {
                lemma_left_within(
                    &t0.buffers,
                    t0.pieces@,
                    self.pieces@,
                    sp as int,
                    sc as int,
                    ec as int,
                );
            }
            return;
        }
        self.trim_piece_start(ep, ec);
        let ghost t1 = *self;
        proof {
            lemma_prefix_same(t0, t1, ep as int, sp + 1);
            lemma_prefix_same(t0, t1, ep as int, ep as int);
            assert(t1.pieces@.subrange(sp + 1, ep as int) =~= t1.pieces@.subrange(
                0,
                ep as int,
            ).subrange(sp + 1, ep as int));
            assert(t0.pieces@.subrange(sp + 1, ep as int) =~= t0.pieces@.subrange(
                0,
                ep as int,
            ).subrange(sp + 1, ep as int));
        }
        self.remove_pieces(sp + 1, ep);
        let ghost t2 = *self;
        proof {
            lemma_prefix_same(t0, t1, ep as int, sp as int);
            lemma_prefix_same(t1, t2, sp + 1, sp as int);
            lemma_prefix_same(t1, t2, sp + 1, sp + 1);
        }
        self.trim_piece_end(sp, sc);
        proof {
            assert(piece_ok(&t0.buffers, t0.pieces@[sp as int]));
            lemma_left_span(
                &t0.buffers,
                t0.pieces@,
                t1.pieces@,
                t2.pieces@,
                self.pieces@,
                sp as int,
                sc as int,
                ep as int,
                ec as int,
            );
            lemma_cut_out_thrice(
                t0@,
                start as int,
                t0.chars_before(sp + 1) as int,
                t0.chars_before(ep as int) as int,
                end as int,
            );
        }
    }

    /// Removes the text between two bounds, given in chars. A range that
    /// holds no char leaves the table as it is.
    #[verifier::rlimit(40)]
    pub fn remove_bounds(&mut self, start: CharBound, end: CharBound)
        requires
            old(self).wf(),
        ensures
            final(self).wf(),
            final(self).spec_buffers() == old(self).spec_buffers(),
            final(self).spec_contiguous() == old(self).spec_contiguous(),
            final(self).spec_unicode() == old(self).spec_unicode(),
            removed_from(old(self), final(self), start, end),
            span_start(start, old(self)@.len()) < span_end(end, old(self)@.len())
                ==> pieces_removed(
                old(self),
                final(self),
                span_start(start, old(self)@.len()) as int,
                span_end(end, old(self)@.len()) as int,
            ),
            span_start(start, old(self)@.len()) >= span_end(end, old(self)@.len()) ==> *final(self)
                == *old(self),
            final(self).spec_len_lines() <= old(self).spec_len_lines(),
            final(self)@.len() == 0 ==> final(self).spec_len_lines() == 1,
            final(self).stored() == old(self).stored(),
            final(self).last_end() == if span_start(start, old(self)@.len()) < span_end(
                end,
                old(self)@.len(),
            ) && !(old(self).last_end() is Some && old(self).last_end()->0 < span_start(
                start,
                old(self)@.len(),
            )) {
                None
            } else {
                old(self).last_end()
            },
    {
        let span = self.simplify_range_bounds(start, end);
        if span.0 >= span.1 {
            proof {
                if self@.len() == 0 {
                    lemma_no_text_no_breaks(&self.buffers, self.pieces@);
                }
            }
            return;
        }
        self.remove_chars(span.0, span.1);
        proof {
            if self@.len() == 0 {
                lemma_no_text_no_breaks(&self.buffers, self.pieces@);
            }
        }
    }

    /// Removes the text in the given char index range.
    pub fn remove<R: std::ops::RangeBounds<usize>>(&mut self, range: R)
        requires
            old(self).wf(),
        ensures
            final(self).wf(),
            final(self).spec_buffers() == old(self).spec_buffers(),
            final(self).spec_contiguous() == old(self).spec_contiguous(),
            final(self).spec_unicode() == old(self).spec_unicode(),
            final(self).spec_len_lines() <= old(self).spec_len_lines(),
            final(self).stored() == old(self).stored(),
            final(self)@.len() == 0 ==> final(self).spec_len_lines() == 1,
            exists|start: CharBound, end: CharBound| #[trigger]
                removed_from(old(self), final(self), start, end),
    {
        let start = range_start(&range);
        let end = range_end(&range);
        self.remove_bounds(start, end);
        proof {
            assert(removed_from(old(self), self, start, end));
        }
    }
}

} // verus!
