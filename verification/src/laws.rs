//! What holds of the operations of a piece table, taken together.

use vstd::prelude::*;
use vstd::utf8::*;
use crate::encoding::{
    lemma_cut_in_crlf, lemma_encode_concat, lemma_range_split, lemma_utf8_len_at_most,
    lemma_utf8_len_bounds, utf8_len,
};
use crate::insert::{lemma_at_start, lemma_inside};
use crate::range::{span_end, span_start, CharBound};
use crate::remove::{cut_out, lemma_no_text_no_breaks, removed};
use crate::str_utils::{break_count, breaks_upto};
use crate::table::{
    lemma_doc_at, lemma_place_is, piece_bytes, piece_chars, piece_ok, PieceTable,
};

verus! {

/// `text` with `more` put in before its char of index `at`.
pub open spec fn inserted(text: Seq<char>, at: int, more: Seq<char>) -> Seq<char> {
    text.subrange(0, at) + more + text.subrange(at, text.len() as int)
}

/// The text of a table is the texts of its pieces, one after another; its
/// length in bytes is that of the text in UTF-8, and it has at least as
/// many bytes as chars.
pub proof fn law_text_of_chunks(table: &PieceTable)
    ensures
        table@ == table.spec_chunks().flatten(),
        table@.len() <= utf8_len(table@),
        utf8_len(table@) == encode_utf8(table@).len(),
{
    lemma_utf8_len_bounds(table@);
}

/// A consistent table without text has one line.
pub proof fn law_no_text_one_line(table: &PieceTable)
    requires
        table.wf(),
        table@.len() == 0,
    ensures
        table.spec_len_lines() == 1,
        utf8_len(table@) == 0,
{
    lemma_no_text_no_breaks(&table.buffers, table.pieces@);
}

/// Inserting `a` and then `b` right after it gives the text that
/// inserting `a + b` gives, with as many bytes and line breaks added.
pub proof fn law_insert_additive(text: Seq<char>, at: int, a: Seq<char>, b: Seq<char>)
    requires
        0 <= at <= text.len(),
    ensures
        inserted(inserted(text, at, a), at + a.len(), b) == inserted(text, at, a + b),
        utf8_len(a + b) == utf8_len(a) + utf8_len(b),
{
    assert(inserted(inserted(text, at, a), at + a.len(), b) =~= inserted(text, at, a + b));
    lemma_encode_concat(a, b);
}

/// An insertion that starts where the one before it ended goes to the
/// piece of that insertion: the text is that of one insertion of both
/// texts, and the second insertion adds no piece.
pub proof fn law_contiguous_inserts(
    t0: &PieceTable,
    t1: &PieceTable,
    t2: &PieceTable,
    at: usize,
    a: Seq<char>,
    b: Seq<char>,
)
    requires
        at <= t0@.len(),
        t1@ == inserted(t0@, at as int, a),
        t1.last_end() == Some((at + a.len()) as usize),
        at + a.len() <= usize::MAX,
        t2@ == inserted(t1@, at + a.len(), b),
        t1.continues(at + a.len()) ==> t2.spec_piece_count() == t1.spec_piece_count(),
    ensures
        t2@ == inserted(t0@, at as int, a + b),
        t2.spec_piece_count() == t1.spec_piece_count(),
{
    law_insert_additive(t0@, at as int, a, b);
}

/// Inserting no text leaves the text as it is, and adds no line break.
pub proof fn law_insert_nothing(text: Seq<char>, at: int, unicode: bool)
    requires
        0 <= at <= text.len(),
    ensures
        inserted(text, at, Seq::<char>::empty()) == text,
        break_count(encode_utf8(Seq::<char>::empty()), unicode) == 0,
{
    assert(inserted(text, at, Seq::<char>::empty()) =~= text);
    assert(breaks_upto(encode_utf8(Seq::<char>::empty()), 0, 0, unicode).len() == 0);
}

/// Inserting at the end appends.
pub proof fn law_insert_at_end(text: Seq<char>, more: Seq<char>)
    ensures
        inserted(text, text.len() as int, more) == text + more,
{
    assert(inserted(text, text.len() as int, more) =~= text + more);
}

/// A range that holds no char removes nothing.
pub proof fn law_remove_nothing(
    before: Seq<char>,
    after: Seq<char>,
    start: CharBound,
    end: CharBound,
)
    requires
        removed(before, after, start, end),
        span_start(start, before.len()) >= span_end(end, before.len()),
    ensures
        after == before,
{
}

/// Removing all chars, with the end given as the length or left open,
/// leaves no text.
pub proof fn law_remove_all(before: Seq<char>, after: Seq<char>, end: CharBound)
    requires
        before.len() <= usize::MAX,
        end == CharBound::Excluded(before.len() as usize) || end == CharBound::Unbounded,
        removed(before, after, CharBound::Included(0), end),
    ensures
        after == Seq::<char>::empty(),
        utf8_len(after) == 0,
{
    if before.len() > 0 {
        assert(cut_out(before, 0, before.len() as int) =~= Seq::<char>::empty());
    }
    assert(after =~= Seq::<char>::empty());
}

/// Removing from the first char up to the last one, the last included,
/// leaves no text.
pub proof fn law_remove_through_last(before: Seq<char>, after: Seq<char>)
    requires
        0 < before.len() <= usize::MAX,
        removed(
            before,
            after,
            CharBound::Included(0),
            CharBound::Included((before.len() - 1) as usize),
        ),
    ensures
        after == Seq::<char>::empty(),
{
    assert(cut_out(before, 0, before.len() as int) =~= Seq::<char>::empty());
}

/// An insertion is refused for a carriage return and its line feed only
/// where the text has a carriage return before the char index and a line
/// feed at it.
pub proof fn law_refused_only_in_crlf(table: &PieceTable, char_idx: int)
    requires
        table.wf(),
        table.splits_crlf(char_idx),
    ensures
        0 < char_idx < table@.len(),
        table@[char_idx - 1] == '\r',
        table@[char_idx] == '\n',
{
    let (i, n) = choose|i: int, n: int|
        0 <= i < table.pieces@.len() && 0 < n < table.spec_chunks()[i].len()
            && table.chars_before(i) + n == char_idx && #[trigger] table.crlf_at(i, n);
    let bufs = table.buffers;
    let p = table.pieces@[i];
    let bytes = bufs.bytes(p.buffer);
    let chunk = piece_chars(&bufs, p);
    assert(piece_ok(&bufs, p));
    encode_utf8_valid_utf8(bufs.chars(p.buffer));
    lemma_range_split(bytes, p.start as int, p.spec_end(), n);
    let cut = p.start + utf8_len(chunk.subrange(0, n));
    assert(piece_bytes(&bufs, p)[cut - p.start - 1] == bytes[cut - 1]);
    assert(piece_bytes(&bufs, p)[cut - p.start] == bytes[cut]);
    lemma_cut_in_crlf(bytes, p.start as int, p.spec_end(), n);
    lemma_doc_at(&bufs, table.pieces@, i);
}

/// Where an insertion continues the last one, a table that extends the
/// piece of the last insertion has fewer pieces afterwards than one that
/// had as many pieces and gives each insertion a piece of its own.
pub proof fn law_fast_path_saves_pieces(
    fast: &PieceTable,
    fast_after: &PieceTable,
    slow: &PieceTable,
    slow_after: &PieceTable,
    at: int,
)
    requires
        fast.spec_piece_count() <= slow.spec_piece_count(),
        fast.continues(at),
        !slow.continues(at),
        fast_after.spec_piece_count() == fast.spec_piece_count(),
        slow.at_piece_end(at) ==> slow_after.spec_piece_count() == slow.spec_piece_count() + 1,
        !slow.at_piece_end(at) ==> slow_after.spec_piece_count() == slow.spec_piece_count() + 2,
    ensures
        fast_after.spec_piece_count() < slow_after.spec_piece_count(),
{
}

/// An insertion where a piece ends or starts parts no carriage return
/// from its line feed: it cuts no piece.
pub proof fn law_piece_end_admits(table: &PieceTable, char_idx: int)
    requires
        table.wf(),
        table.at_piece_end(char_idx),
    ensures
        !table.splits_crlf(char_idx),
{
    if table.splits_crlf(char_idx) {
        let (i, n) = choose|i: int, n: int|
            0 <= i < table.pieces@.len() && 0 < n < table.spec_chunks()[i].len()
                && table.chars_before(i) + n == char_idx && #[trigger] table.crlf_at(i, n);
        lemma_inside(*table, i, n);
    }
}

/// A char index after the start has one place only: where it lies in a
/// piece, after its first char and up to its end, that is its place.
pub proof fn law_place_of(table: &PieceTable, i: int, n: int, c: int)
    requires
        table.place_holds(i, n, c),
    ensures
        table.spec_place(c) == (i, n),
{
    lemma_place_is(*table, i, n, c);
}

/// A char index inside a piece, after its first char and before its last,
/// is not one at which a piece ends or starts.
pub proof fn law_inside_is_no_end(table: &PieceTable, i: int, n: int)
    requires
        0 <= i < table.spec_piece_count(),
        0 < n < table.spec_chunks()[i].len(),
    ensures
        !table.at_piece_end(table.chars_before(i) + n),
{
    lemma_inside(*table, i, n);
}

/// The start of the text and its end are places where a piece ends or
/// starts.
pub proof fn law_ends_are_piece_ends(table: &PieceTable)
    ensures
        table.chars_before(0) == 0,
        table.chars_before(table.spec_piece_count() as int) == table@.len(),
        table.at_piece_end(0),
        table.at_piece_end(table@.len() as int),
{
    lemma_at_start(*table);
    assert(table.pieces@.subrange(0, table.pieces@.len() as int) =~= table.pieces@);
    assert(table.chars_before(table.pieces@.len() as int) == table@.len());
}

/// There is room for a text in a table whose buffers hold few enough bytes
/// for four bytes for each char of the text.
pub proof fn law_room_by_chars(table: &PieceTable, text: Seq<char>)
    requires
        table.stored() + 4 * text.len() < usize::MAX,
    ensures
        table.has_room(text),
{
    lemma_utf8_len_at_most(text);
}

/// A text of chars below U+0080 takes as many bytes as it has chars.
pub proof fn law_ascii_len(text: Seq<char>)
    requires
        is_ascii_chars(text),
    ensures
        utf8_len(text) == text.len(),
{
    is_ascii_chars_encode_utf8(text);
}

} // verus!
