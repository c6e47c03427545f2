//! The piece table: its pieces, its text, and what makes it consistent.

use vstd::prelude::*;
use vstd::seq_lib::*;
use vstd::string::*;
use vstd::utf8::*;
use crate::buffer::{entry_ok, Buffers, BufferType};
use crate::encoding::{boundary, lemma_boundary_iff, slice_str, utf8_len};
use crate::line::Break;
use crate::piece::Piece;
use crate::str_utils::{break_count, breaks_of, count_chars};

verus! {

/// The bytes that a piece covers.
pub open spec fn piece_bytes(bufs: &Buffers, p: Piece) -> Seq<u8> {
    bufs.bytes(p.buffer).subrange(p.start as int, p.spec_end())
}

/// The text that a piece covers.
pub open spec fn piece_chars(bufs: &Buffers, p: Piece) -> Seq<char> {
    decode_utf8(piece_bytes(bufs, p))
}

/// `first` is the index of the first entry of `reg` that starts within the
/// bytes from `start` to `end`, or `None` if no entry starts there.
pub open spec fn first_break_ok(
    reg: Seq<(usize, Break)>,
    start: int,
    end: int,
    first: Option<usize>,
) -> bool {
    match first {
        Some(i) => {
            &&& i < reg.len()
            &&& start <= reg[i as int].0 < end
            &&& forall|j: int| 0 <= j < i ==> !(start <= (#[trigger] reg[j]).0 < end)
        },
        None => forall|j: int| 0 <= j < reg.len() ==> !(start <= (#[trigger] reg[j]).0 < end),
    }
}

/// The line break of entry `e` lies wholly within the bytes from `start`
/// to `end`.
pub open spec fn within(e: (usize, Break), start: int, end: int) -> bool {
    start <= e.0 && e.0 + e.1.spec_len_bytes() <= end
}

/// Those of the first `n` entries of `reg` that lie wholly within the bytes
/// from `start` to `end`, in order.
pub open spec fn breaks_within(reg: Seq<(usize, Break)>, start: int, end: int, n: int) -> Seq<
    (usize, Break),
>
    decreases n,
{
    if n <= 0 {
        seq![]
    } else if within(reg[n - 1], start, end) {
        breaks_within(reg, start, end, n - 1).push(reg[n - 1])
    } else {
        breaks_within(reg, start, end, n - 1)
    }
}

/// The line breaks that a piece holds: the entries of its buffer's registry
/// that lie wholly within it.
pub open spec fn piece_breaks(bufs: &Buffers, p: Piece) -> Seq<(usize, Break)> {
    let reg = bufs.registry(p.buffer);
    breaks_within(reg, p.start as int, p.spec_end(), reg.len() as int)
}

/// A piece fits the buffers: it covers whole chars of its buffer, and its
/// cached values are those of the bytes it covers.
pub open spec fn piece_ok(bufs: &Buffers, p: Piece) -> bool {
    let bytes = bufs.bytes(p.buffer);
    &&& p.spec_end() <= bytes.len()
    &&& boundary(bytes, p.start as int)
    &&& boundary(bytes, p.spec_end())
    &&& p.len_chars == piece_chars(bufs, p).len()
    &&& first_break_ok(bufs.registry(p.buffer), p.start as int, p.spec_end(), p.first_line_break)
}

/// The texts of the pieces, one for each.
pub open spec fn chunks(bufs: &Buffers, pieces: Seq<Piece>) -> Seq<Seq<char>> {
    Seq::new(pieces.len(), |i: int| piece_chars(bufs, pieces[i]))
}

/// The text of a list of pieces: the texts of the pieces, one after another.
pub open spec fn doc(bufs: &Buffers, pieces: Seq<Piece>) -> Seq<char> {
    chunks(bufs, pieces).flatten()
}

/// The number of line breaks that the pieces hold.
pub open spec fn break_total(bufs: &Buffers, pieces: Seq<Piece>) -> nat
    decreases pieces.len(),
{
    if pieces.len() == 0 {
        0
    } else {
        break_total(bufs, pieces.drop_last()) + piece_breaks(bufs, pieces.last()).len()
    }
}

/// The text of two lists of pieces, one after the other, is the text of
/// the first and then the text of the second.
pub proof fn lemma_doc_concat(bufs: &Buffers, x: Seq<Piece>, y: Seq<Piece>)
    ensures
        doc(bufs, x + y) == doc(bufs, x) + doc(bufs, y),
{
    assert(chunks(bufs, x + y) =~= chunks(bufs, x) + chunks(bufs, y));
    lemma_flatten_concat(chunks(bufs, x), chunks(bufs, y));
}

/// The text of a list of one piece is the text of that piece.
pub proof fn lemma_doc_one(bufs: &Buffers, p: Piece)
    ensures
        doc(bufs, seq![p]) == piece_chars(bufs, p),
{
    let c = chunks(bufs, seq![p]);
    c.lemma_flatten_one_element();
    assert(c.first() == piece_chars(bufs, p));
}

/// The text of a list of pieces is the text before piece `i`, then the
/// text of that piece, then the text after it.
pub proof fn lemma_doc_at(bufs: &Buffers, pieces: Seq<Piece>, i: int)
    requires
        0 <= i < pieces.len(),
    ensures
        doc(bufs, pieces) == doc(bufs, pieces.subrange(0, i)) + piece_chars(bufs, pieces[i]) + doc(
            bufs,
            pieces.subrange(i + 1, pieces.len() as int),
        ),
        doc(bufs, pieces.subrange(0, i + 1)) == doc(bufs, pieces.subrange(0, i)) + piece_chars(
            bufs,
            pieces[i],
        ),
{
    let before = pieces.subrange(0, i);
    let after = pieces.subrange(i + 1, pieces.len() as int);
    assert(pieces =~= before + seq![pieces[i]] + after);
    assert(pieces.subrange(0, i + 1) =~= before + seq![pieces[i]]);
    lemma_doc_concat(bufs, before + seq![pieces[i]], after);
    lemma_doc_concat(bufs, before, seq![pieces[i]]);
    lemma_doc_one(bufs, pieces[i]);
}

/// The text of a list of pieces is the text of its first `i` pieces, then
/// the text of the others.
pub proof fn lemma_doc_split(bufs: &Buffers, pieces: Seq<Piece>, i: int)
    requires
        0 <= i <= pieces.len(),
    ensures
        doc(bufs, pieces) == doc(bufs, pieces.subrange(0, i)) + doc(
            bufs,
            pieces.subrange(i, pieces.len() as int),
        ),
{
    assert(pieces =~= pieces.subrange(0, i) + pieces.subrange(i, pieces.len() as int));
    lemma_doc_concat(bufs, pieces.subrange(0, i), pieces.subrange(i, pieces.len() as int));
}

/// Pieces that cover the same text in two sets of buffers give the same
/// text.
pub proof fn lemma_doc_frame(b1: &Buffers, b2: &Buffers, pieces: Seq<Piece>)
    requires
        forall|i: int|
            0 <= i < pieces.len() ==> piece_chars(b1, #[trigger] pieces[i]) == piece_chars(
                b2,
                pieces[i],
            ),
    ensures
        doc(b1, pieces) == doc(b2, pieces),
{
    assert(chunks(b1, pieces) =~= chunks(b2, pieces));
}

/// Two lists of pieces, one after the other, hold the line breaks of both.
pub proof fn lemma_total_concat(bufs: &Buffers, x: Seq<Piece>, y: Seq<Piece>)
    ensures
        break_total(bufs, x + y) == break_total(bufs, x) + break_total(bufs, y),
    decreases y.len(),
{
    if y.len() == 0 {
        assert(x + y =~= x);
    } else {
        assert((x + y).drop_last() =~= x + y.drop_last());
        lemma_total_concat(bufs, x, y.drop_last());
    }
}

/// A list of one piece holds the line breaks of that piece.
pub proof fn lemma_total_one(bufs: &Buffers, p: Piece)
    ensures
        break_total(bufs, seq![p]) == piece_breaks(bufs, p).len(),
{
    let one = seq![p];
    assert(one.drop_last() =~= Seq::<Piece>::empty());
    assert(one.last() == p);
    assert(break_total(bufs, one.drop_last()) == 0);
}

/// A list of pieces holds the line breaks before piece `i`, those of that
/// piece, and those after it.
pub proof fn lemma_total_at(bufs: &Buffers, pieces: Seq<Piece>, i: int)
    requires
        0 <= i < pieces.len(),
    ensures
        break_total(bufs, pieces) == break_total(bufs, pieces.subrange(0, i)) + piece_breaks(
            bufs,
            pieces[i],
        ).len() + break_total(bufs, pieces.subrange(i + 1, pieces.len() as int)),
{
    let before = pieces.subrange(0, i);
    let after = pieces.subrange(i + 1, pieces.len() as int);
    assert(pieces =~= before + seq![pieces[i]] + after);
    lemma_total_concat(bufs, before + seq![pieces[i]], after);
    lemma_total_concat(bufs, before, seq![pieces[i]]);
    lemma_total_one(bufs, pieces[i]);
}

/// A list of pieces holds the line breaks of its first `i` pieces and
/// those of the others.
pub proof fn lemma_total_split(bufs: &Buffers, pieces: Seq<Piece>, i: int)
    requires
        0 <= i <= pieces.len(),
    ensures
        break_total(bufs, pieces) == break_total(bufs, pieces.subrange(0, i)) + break_total(
            bufs,
            pieces.subrange(i, pieces.len() as int),
        ),
{
    assert(pieces =~= pieces.subrange(0, i) + pieces.subrange(i, pieces.len() as int));
    lemma_total_concat(bufs, pieces.subrange(0, i), pieces.subrange(i, pieces.len() as int));
}

/// Pieces that hold the same line breaks in two sets of buffers hold as
/// many in both.
pub proof fn lemma_total_frame(b1: &Buffers, b2: &Buffers, pieces: Seq<Piece>)
    requires
        forall|i: int|
            0 <= i < pieces.len() ==> piece_breaks(b1, #[trigger] pieces[i]) == piece_breaks(
                b2,
                pieces[i],
            ),
    ensures
        break_total(b1, pieces) == break_total(b2, pieces),
    decreases pieces.len(),
{
    if pieces.len() > 0 {
        lemma_total_frame(b1, b2, pieces.drop_last());
    }
}

/// Where each of the first `n` entries lies within the range, all of them
/// are its breaks.
pub proof fn lemma_within_all(reg: Seq<(usize, Break)>, start: int, end: int, n: int)
    requires
        0 <= n <= reg.len(),
        forall|k: int| 0 <= k < n ==> within(#[trigger] reg[k], start, end),
    ensures
        breaks_within(reg, start, end, n) == reg.subrange(0, n),
    decreases n,
{
    if n > 0 {
        lemma_within_all(reg, start, end, n - 1);
        assert(reg.subrange(0, n) =~= reg.subrange(0, n - 1).push(reg[n - 1]));
    } else {
        assert(reg.subrange(0, n) =~= Seq::<(usize, Break)>::empty());
    }
}

/// A char index after the start has one place only.
pub(crate) proof fn lemma_place_is(t: PieceTable, i: int, n: int, c: int)
    requires
        t.place_holds(i, n, c),
    ensures
        t.spec_place(c) == (i, n),
{
    let (j, m) = choose|j: int, m: int| t.place_holds(j, m, c);
    let bufs = t.buffers;
    if i < j {
        lemma_doc_at(&bufs, t.pieces@, i);
        lemma_ahead(&bufs, t.pieces@, i + 1, j);
    } else if j < i {
        lemma_doc_at(&bufs, t.pieces@, j);
        lemma_ahead(&bufs, t.pieces@, j + 1, i);
    }
}

/// The number of chars before a piece does not shrink from piece to piece.
pub proof fn lemma_ahead(bufs: &Buffers, pieces: Seq<Piece>, i: int, j: int)
    requires
        0 <= i <= j <= pieces.len(),
    ensures
        doc(bufs, pieces.subrange(0, i)).len() <= doc(bufs, pieces.subrange(0, j)).len(),
{
    assert(pieces.subrange(0, j) =~= pieces.subrange(0, i) + pieces.subrange(i, j));
    lemma_doc_concat(bufs, pieces.subrange(0, i), pieces.subrange(i, j));
}

/// A text as a list of pieces over two buffers.
#[derive(Debug)]
pub struct PieceTable<'b> {
    pub(crate) pieces: Vec<Piece>,
    pub(crate) buffers: Buffers<'b>,
    pub(crate) len_bytes: usize,
    pub(crate) len_chars: usize,
    pub(crate) len_lines: usize,
    /// The char index after the last insertion, and the index of the piece
    /// that the last insertion went to, while a next insertion at that char
    /// index can extend that piece.
    pub(crate) last_insert: Option<(usize, usize)>,
    /// Whether an insertion that starts where the last one ended extends
    /// the piece of the last one.
    pub(crate) contiguous: bool,
}

impl<'b> View for PieceTable<'b> {
    type V = Seq<char>;

    /// The text of the table.
    open(crate) spec fn view(&self) -> Seq<char> {
        doc(&self.buffers, self.pieces@)
    }
}

impl<'b> PieceTable<'b> {
    /// The texts of the pieces of the table, in order.
    pub open(crate) spec fn spec_chunks(&self) -> Seq<Seq<char>> {
        chunks(&self.buffers, self.pieces@)
    }

    /// The bytes of piece `i`.
    pub open(crate) spec fn spec_chunk_bytes(&self, i: int) -> Seq<u8> {
        piece_bytes(&self.buffers, self.pieces@[i])
    }

    /// Piece `i`.
    pub open(crate) spec fn spec_piece(&self, i: int) -> Piece {
        self.pieces@[i]
    }

    /// The two buffers.
    pub open(crate) spec fn spec_buffers(&self) -> Buffers<'b> {
        self.buffers
    }

    /// The pieces, in order.
    pub open(crate) spec fn spec_pieces(&self) -> Seq<Piece> {
        self.pieces@
    }

    /// Char index `c` lies in piece `i` at its char of index `n`, where a
    /// piece holds the indices after its first char, up to its end.
    pub open(crate) spec fn place_holds(&self, i: int, n: int, c: int) -> bool {
        0 <= i < self.pieces@.len() && 0 < n <= self.spec_chunks()[i].len() && self.chars_before(i)
            + n == c
    }

    /// The place of char index `c`: the piece in which it lies and the char
    /// index in that piece; `(0, 0)` for the start of the text.
    pub open(crate) spec fn spec_place(&self, c: int) -> (int, int) {
        if c <= 0 {
            (0int, 0int)
        } else {
            choose|i: int, n: int| self.place_holds(i, n, c)
        }
    }

    /// The number of pieces.
    pub open(crate) spec fn spec_piece_count(&self) -> nat {
        self.pieces@.len()
    }

    /// The number of chars in the pieces before piece `i`.
    pub open(crate) spec fn chars_before(&self, i: int) -> nat {
        doc(&self.buffers, self.pieces@.subrange(0, i)).len()
    }

    /// The number of lines: one more than the line breaks that the pieces
    /// hold.
    pub open(crate) spec fn spec_len_lines(&self) -> nat {
        1 + break_total(&self.buffers, self.pieces@)
    }

    /// The number of bytes that the two buffers hold together.
    pub open(crate) spec fn stored(&self) -> nat {
        self.buffers.stored()
    }

    /// Whether an insertion that starts where the last one ended extends
    /// the piece of the last one.
    pub open(crate) spec fn spec_contiguous(&self) -> bool {
        self.contiguous
    }

    /// Whether a carriage return alone, a vertical tab, a form feed and the
    /// chars U+0085, U+2028 and U+2029 are line breaks.
    pub open(crate) spec fn spec_unicode(&self) -> bool {
        self.buffers.unicode
    }

    /// The char index after the last insertion, while a next insertion
    /// there can extend the piece of the last one.
    pub open(crate) spec fn last_end(&self) -> Option<usize> {
        match self.last_insert {
            Some(last) => Some(last.0),
            None => None,
        }
    }

    /// The index of the piece that the last insertion went to, while a next
    /// insertion can extend it.
    pub open(crate) spec fn last_piece(&self) -> Option<usize> {
        match self.last_insert {
            Some(last) => Some(last.1),
            None => None,
        }
    }

    /// What is kept of the last insertion, if anything, names an add piece
    /// that ends where the add buffer ends, and the char index at which that
    /// piece ends.
    pub open(crate) spec fn last_insert_ok(&self) -> bool {
        match self.last_insert {
            Some((char_idx, piece_idx)) => {
                &&& piece_idx < self.pieces@.len()
                &&& self.pieces@[piece_idx as int].buffer == BufferType::Add
                &&& self.pieces@[piece_idx as int].spec_end() == self.buffers.bytes(
                    BufferType::Add,
                ).len()
                &&& char_idx == self.chars_before(piece_idx + 1)
            },
            None => true,
        }
    }

    /// The table is consistent: the registries fit the buffers, the pieces
    /// fit the buffers, and the counters are those of the text.
    pub open(crate) spec fn wf(&self) -> bool {
        &&& self.buffers.wf()
        &&& forall|i: int|
            0 <= i < self.pieces@.len() ==> piece_ok(&self.buffers, #[trigger] self.pieces@[i])
        &&& self.len_chars == self@.len()
        &&& self.len_bytes == utf8_len(self@)
        &&& self.len_bytes <= self.buffers.stored()
        &&& self.len_lines == self.spec_len_lines()
        &&& self.len_lines <= 1 + self.buffers.registered()
        &&& self.last_insert_ok()
        &&& (self.last_insert is Some ==> self.contiguous)
    }

    /// Create a new [`PieceTable`] with the initial contents set to `initial`.
    /// An insertion that starts where the last one ended extends the piece
    /// of the last one, and line breaks are line feeds and carriage returns
    /// followed by a line feed.
    pub fn new(initial: &'b str) -> (table: Self)
        requires
            initial.spec_bytes().len() < usize::MAX,
        ensures
            table.wf(),
            table@ == initial@,
            table.spec_len_lines() == 1 + break_count(initial.spec_bytes(), false),
            table.spec_piece_count() == 1,
            table.last_end() == None::<usize>,
            table.spec_contiguous(),
            !table.spec_unicode(),
            table.spec_chunks() == seq![initial@],
            table.stored() == initial.spec_bytes().len(),
            !table.spec_buffers().unicode,
            table.spec_buffers().chars(BufferType::Original) == initial@,
            table.spec_buffers().chars(BufferType::Add) == Seq::<char>::empty(),
            table.spec_buffers().registry(BufferType::Original) == breaks_of(
                initial.spec_bytes(),
                0,
                false,
            ),
            table.spec_buffers().registry(BufferType::Add) == Seq::<(usize, Break)>::empty(),
            table.spec_piece(0).buffer == BufferType::Original,
            table.spec_piece(0).start == 0,
            table.spec_piece(0).len_bytes == initial.spec_bytes().len(),
            table.spec_piece(0).len_chars == initial@.len(),
            table.spec_piece(0).first_line_break == if break_count(initial.spec_bytes(), false) > 0 {
                Some(0usize)
            } else {
                None
            },
    {
        PieceTable::with_options(initial, true, false)
    }

    /// Create a new [`PieceTable`] with the initial contents set to `initial`,
    /// in which an insertion that starts where the last one ended extends
    /// the piece of the last one if `contiguous` is set, and makes a piece
    /// of its own if not.
    pub fn with_contiguous_inserts(initial: &'b str, contiguous: bool) -> (table: Self)
        requires
            initial.spec_bytes().len() < usize::MAX,
        ensures
            table.wf(),
            table@ == initial@,
            table.spec_len_lines() == 1 + break_count(initial.spec_bytes(), false),
            table.spec_piece_count() == 1,
            table.last_end() == None::<usize>,
            table.spec_contiguous() == contiguous,
            !table.spec_unicode(),
            table.spec_chunks() == seq![initial@],
            table.stored() == initial.spec_bytes().len(),
            !table.spec_buffers().unicode,
            table.spec_buffers().chars(BufferType::Original) == initial@,
            table.spec_buffers().chars(BufferType::Add) == Seq::<char>::empty(),
            table.spec_buffers().registry(BufferType::Original) == breaks_of(
                initial.spec_bytes(),
                0,
                false,
            ),
            table.spec_buffers().registry(BufferType::Add) == Seq::<(usize, Break)>::empty(),
            table.spec_piece(0).buffer == BufferType::Original,
            table.spec_piece(0).start == 0,
            table.spec_piece(0).len_bytes == initial.spec_bytes().len(),
            table.spec_piece(0).len_chars == initial@.len(),
            table.spec_piece(0).first_line_break == if break_count(initial.spec_bytes(), false) > 0 {
                Some(0usize)
            } else {
                None
            },
    {
        PieceTable::with_options(initial, contiguous, false)
    }

    /// Create a new [`PieceTable`] with the initial contents set to `initial`.
    /// Where `contiguous` is set, an insertion that starts where the last
    /// one ended extends the piece of the last one. Where `unicode` is set,
    /// a carriage return alone, a vertical tab, a form feed and the chars
    /// U+0085, U+2028 and U+2029 are line breaks too.
    #[verifier::rlimit(40)]
    pub fn with_options(initial: &'b str, contiguous: bool, unicode: bool) -> (table: Self)
        requires
            initial.spec_bytes().len() < usize::MAX,
        ensures
            table.wf(),
            table@ == initial@,
            table.spec_len_lines() == 1 + break_count(initial.spec_bytes(), unicode),
            table.spec_piece_count() == 1,
            table.last_end() == None::<usize>,
            table.spec_contiguous() == contiguous,
            table.spec_unicode() == unicode,
            table.spec_chunks() == seq![initial@],
            table.stored() == initial.spec_bytes().len(),
            table.spec_buffers().unicode == unicode,
            table.spec_buffers().chars(BufferType::Original) == initial@,
            table.spec_buffers().chars(BufferType::Add) == Seq::<char>::empty(),
            table.spec_buffers().registry(BufferType::Original) == breaks_of(
                initial.spec_bytes(),
                0,
                unicode,
            ),
            table.spec_buffers().registry(BufferType::Add) == Seq::<(usize, Break)>::empty(),
            table.spec_piece(0).buffer == BufferType::Original,
            table.spec_piece(0).start == 0,
            table.spec_piece(0).len_bytes == initial.spec_bytes().len(),
            table.spec_piece(0).len_chars == initial@.len(),
            table.spec_piece(0).first_line_break == if break_count(initial.spec_bytes(), unicode) > 0 {
                Some(0usize)
            } else {
                None
            },
    {
        let buffers = Buffers::with_line_breaks(initial, unicode);
        let first_line_break: Option<usize> = if buffers.original.line_breaks.len() == 0 {
            None
        } else {
            Some(0)
        };
        let initial_piece = Piece {
            buffer: BufferType::Original,
            start: 0,
            len_bytes: initial.len(),
            len_chars: count_chars(initial),
            first_line_break,
        };
        let len_lines: usize = buffers.original.line_breaks.len() + 1;
        let mut pieces: Vec<Piece> = Vec::new();
        pieces.push(initial_piece);
        let table = PieceTable {
            len_bytes: initial.len(),
            len_chars: count_chars(initial),
            len_lines,
            last_insert: None,
            contiguous,
            buffers,
            pieces,
        };
        proof {
            let bytes = initial.spec_bytes();
            let reg = table.buffers.registry(BufferType::Original);
            encode_utf8_valid_utf8(initial@);
            encode_utf8_decode_utf8(initial@);
            lemma_boundary_iff(bytes, 0);
            assert(bytes.subrange(0, bytes.len() as int) =~= bytes);
            assert(table.pieces@ =~= seq![initial_piece]);
            assert(table.spec_chunks() =~= seq![initial@]);
            lemma_doc_one(&table.buffers, initial_piece);
            lemma_total_one(&table.buffers, initial_piece);
            assert forall|k: int| 0 <= k < reg.len() implies within(
                #[trigger] reg[k],
                0,
                bytes.len() as int,
            ) by {
                assert(entry_ok(bytes, reg[k]));
            }
            lemma_within_all(reg, 0, bytes.len() as int, reg.len() as int);
            assert(reg.subrange(0, reg.len() as int) =~= reg);
            if reg.len() > 0 {
                assert(entry_ok(bytes, reg[0]));
            }
        }
        table
    }

    /// A new table for `initial`, unless `initial` is so long that the
    /// counters of a table could not hold its lengths.
    pub fn try_new(initial: &'b str) -> (made: Option<Self>)
        ensures
            made is Some <==> initial.spec_bytes().len() < usize::MAX,
            made is Some ==> {
                &&& made->0.wf()
                &&& made->0@ == initial@
                &&& made->0.spec_len_lines() == 1 + break_count(initial.spec_bytes(), false)
                &&& made->0.spec_piece_count() == 1
                &&& made->0.last_end() == None::<usize>
                &&& made->0.spec_contiguous()
                &&& !made->0.spec_unicode()
                &&& made->0.spec_chunks() == seq![initial@]
                &&& made->0.stored() == initial.spec_bytes().len()
                &&& !made->0.spec_buffers().unicode
                &&& made->0.spec_buffers().chars(BufferType::Original) == initial@
                &&& made->0.spec_buffers().chars(BufferType::Add) == Seq::<char>::empty()
                &&& made->0.spec_buffers().registry(BufferType::Original) == breaks_of(
                    initial.spec_bytes(),
                    0,
                    false,
                )
                &&& made->0.spec_buffers().registry(BufferType::Add) == Seq::<(usize, Break)>::empty()
                &&& made->0.spec_piece(0).buffer == BufferType::Original
                &&& made->0.spec_piece(0).start == 0
                &&& made->0.spec_piece(0).len_bytes == initial.spec_bytes().len()
                &&& made->0.spec_piece(0).len_chars == initial@.len()
                &&& made->0.spec_piece(0).first_line_break == if break_count(initial.spec_bytes(), false) > 0 {
                    Some(0usize)
                } else {
                    None
                }
            },
    {
        if initial.as_bytes().len() < usize::MAX {
            Some(PieceTable::new(initial))
        } else {
            None
        }
    }

    /// The text of piece `i`.
    pub fn piece_text(&self, i: usize) -> (text: &str)
        requires
            self.wf(),
            i < self.spec_piece_count(),
        ensures
            text@ == self.spec_chunks()[i as int],
            text.spec_bytes() == self.spec_chunk_bytes(i as int),
    {
        let piece = self.pieces[i];
        assert(piece_ok(&self.buffers, piece));
        let range = piece.byte_range();
        slice_str(self.buffers.index(piece.buffer), range.0, range.1)
    }

    /// Collect the text from the piece table.
    pub fn text(&self) -> (text: String)
        requires
            self.wf(),
        ensures
            text@ == self@,
    {
        let mut text = String::new();
        let mut i: usize = 0;
        while i < self.pieces.len()
            invariant
                self.wf(),
                0 <= i <= self.pieces@.len(),
                text@ == doc(&self.buffers, self.pieces@.subrange(0, i as int)),
            decreases self.pieces@.len() - i,
        {
            let chunk = self.piece_text(i);
            text.append(chunk);
            proof {
                lemma_doc_at(&self.buffers, self.pieces@, i as int);
            }
            i = i + 1;
        }
        proof {
            assert(self.pieces@.subrange(0, i as int) =~= self.pieces@);
        }
        text
    }

    /// The `&str` chunks of the table, one for each piece, in order.
    pub fn iter(&self) -> (parts: Vec<&str>)
        requires
            self.wf(),
        ensures
            parts@.len() == self.spec_chunks().len(),
            forall|i: int| 0 <= i < parts@.len() ==> (#[trigger] parts@[i])@ == self.spec_chunks()[i],
            self.spec_chunks().flatten() == self@,
    {
        let mut parts: Vec<&str> = Vec::new();
        let mut i: usize = 0;
        while i < self.pieces.len()
            invariant
                self.wf(),
                0 <= i <= self.pieces@.len(),
                parts@.len() == i,
                forall|k: int| 0 <= k < i ==> (#[trigger] parts@[k])@ == self.spec_chunks()[k],
            decreases self.pieces@.len() - i,
        {
            let chunk = self.piece_text(i);
            parts.push(chunk);
            i = i + 1;
        }
        parts
    }

    /// The number of pieces.
    pub fn piece_count(&self) -> (n: usize)
        ensures
            n == self.spec_piece_count(),
    {
        self.pieces.len()
    }

    /// Piece `i`.
    pub fn piece(&self, i: usize) -> (p: Piece)
        requires
            i < self.spec_piece_count(),
        ensures
            p == self.spec_piece(i as int),
    {
        self.pieces[i]
    }

    /// The two buffers and their registries of line breaks.
    pub fn buffers(&self) -> (bufs: &Buffers<'b>)
        ensures
            *bufs == self.spec_buffers(),
    {
        &self.buffers
    }

    /// Total number of chars in the piece table.
    pub fn len_chars(&self) -> (n: usize)
        requires
            self.wf(),
        ensures
            n == self@.len(),
    {
        self.len_chars
    }

    /// Total number of bytes in the piece table.
    pub fn len_bytes(&self) -> (n: usize)
        requires
            self.wf(),
        ensures
            n == utf8_len(self@),
    {
        self.len_bytes
    }

    /// Total number of lines in the piece table.
    pub fn len_lines(&self) -> (n: usize)
        requires
            self.wf(),
        ensures
            n == self.spec_len_lines(),
    {
        self.len_lines
    }

    /// The piece that holds the char before `char_idx`, and the place in
    /// that piece, in chars, at which `char_idx` lies: `(0, 0)` for the
    /// start of the text, else the first piece that reaches `char_idx`.
    pub fn piece_at_char(&self, char_idx: usize) -> (r: (usize, usize))
        requires
            self.wf(),
            char_idx <= self@.len(),
        ensures
            char_idx == 0 ==> r == (0usize, 0usize),
            char_idx > 0 ==> {
                &&& r.0 < self.spec_piece_count()
                &&& 0 < r.1 <= self.spec_chunks()[r.0 as int].len()
                &&& self.chars_before(r.0 as int) + r.1 == char_idx
            },
            (r.0 as int, r.1 as int) == self.spec_place(char_idx as int),
    {
        if char_idx == 0 {
            return (0, 0);
        }
        let mut offset: usize = 0;
        let mut i: usize = 0;
        while i < self.pieces.len()
            invariant
                self.wf(),
                0 <= i <= self.pieces@.len(),
                offset == self.chars_before(i as int),
                offset < char_idx <= self@.len(),
            decreases self.pieces@.len() - i,
        {
            let piece = self.pieces[i];
            proof {
                lemma_doc_at(&self.buffers, self.pieces@, i as int);
                lemma_doc_split(&self.buffers, self.pieces@, i + 1);
                assert(piece_ok(&self.buffers, piece));
            }
            let reached: usize = offset + piece.len_chars;
            if reached >= char_idx {
                proof {
                    lemma_place_is(*self, i as int, char_idx - offset, char_idx as int);
                }
                return (i, char_idx - offset);
            }
            offset = reached;
            i = i + 1;
        }
        proof {
            assert(self.pieces@.subrange(0, i as int) =~= self.pieces@);
        }
        (0, 0)
    }
}

} // verus!
