//! Counting chars, converting char indices, and finding line breaks.

use vstd::prelude::*;
use vstd::string::*;
use vstd::utf8::*;
use crate::encoding::utf8_len;
use crate::line::Break;

verus! {

/// The number of chars of `text`.
///
/// Calls `str_indices::chars::count`, which counts the chars of a string
/// slice; the contract says that this is the length of the text as a
/// sequence of chars.
#[verifier::external_body]
pub(crate) fn count_chars(text: &str) -> (n: usize)
    ensures
        n == text@.len(),
{
    str_indices::chars::count(text)
}

/// The byte index in `text` at which its char of index `char_idx` starts.
///
/// Calls `str_indices::chars::to_byte_idx`, which converts a char index to
/// a byte index and gives the length in bytes for an index past the end; the
/// contract says that the result is the number of bytes that the first
/// `char_idx` chars take, or all of them.
#[verifier::external_body]
pub(crate) fn char_to_byte(text: &str, char_idx: usize) -> (b: usize)
    ensures
        char_idx <= text@.len() ==> b == utf8_len(text@.subrange(0, char_idx as int)),
        char_idx > text@.len() ==> b == utf8_len(text@),
{
    str_indices::chars::to_byte_idx(text, char_idx)
}

/// The line break that starts at byte `i` of `bytes`, if one does. A line
/// feed that follows a carriage return belongs to the break that started
/// one byte earlier. A carriage return alone, a vertical tab, a form feed,
/// and the chars U+0085, U+2028 and U+2029 are line breaks where `unicode`
/// is set, and no line breaks where it is not.
pub open spec fn break_at(bytes: Seq<u8>, i: int, unicode: bool) -> Option<Break> {
    let byte = bytes[i];
    if byte == 0x0A {
        if i > 0 && bytes[i - 1] == 0x0D {
            None
        } else {
            Some(Break::Lf)
        }
    } else if byte == 0x0D {
        if i + 1 < bytes.len() && bytes[i + 1] == 0x0A {
            Some(Break::Crlf)
        } else if unicode {
            Some(Break::Cr)
        } else {
            None
        }
    } else if !unicode {
        None
    } else if byte == 0x0B {
        Some(Break::Vt)
    } else if byte == 0x0C {
        Some(Break::Ff)
    } else if byte == 0xC2 && i + 1 < bytes.len() && bytes[i + 1] == 0x85 {
        Some(Break::Nel)
    } else if byte == 0xE2 && i + 2 < bytes.len() && bytes[i + 1] == 0x80 && bytes[i + 2] == 0xA8 {
        Some(Break::Ls)
    } else if byte == 0xE2 && i + 2 < bytes.len() && bytes[i + 1] == 0x80 && bytes[i + 2] == 0xA9 {
        Some(Break::Ps)
    } else {
        None
    }
}

/// The line breaks that start among the first `n` bytes of `bytes`, in
/// order, each with the index of its first byte counted from `base`.
pub open spec fn breaks_upto(bytes: Seq<u8>, base: int, n: int, unicode: bool) -> Seq<
    (usize, Break),
>
    decreases n,
{
    if n <= 0 {
        seq![]
    } else {
        let before = breaks_upto(bytes, base, n - 1, unicode);
        match break_at(bytes, n - 1, unicode) {
            Some(kind) => before.push(((base + n - 1) as usize, kind)),
            None => before,
        }
    }
}

/// All line breaks of `bytes`, in order, offsets counted from `base`.
pub open spec fn breaks_of(bytes: Seq<u8>, base: int, unicode: bool) -> Seq<(usize, Break)> {
    breaks_upto(bytes, base, bytes.len() as int, unicode)
}

/// The number of line breaks of `bytes`.
pub open spec fn break_count(bytes: Seq<u8>, unicode: bool) -> nat {
    breaks_of(bytes, 0, unicode).len()
}

/// The number of breaks found does not depend on the base of the offsets.
pub proof fn lemma_break_count(bytes: Seq<u8>, base: int, n: int, unicode: bool)
    requires
        0 <= n <= bytes.len(),
    ensures
        breaks_upto(bytes, base, n, unicode).len() == breaks_upto(bytes, 0, n, unicode).len(),
    decreases n,
{
    if n > 0 {
        lemma_break_count(bytes, base, n - 1, unicode);
    }
}

/// What holds of the breaks found in a text: there are no more of them than
/// bytes, each lies within the text, on the bytes of its kind, and the
/// offsets increase.
pub proof fn lemma_breaks_upto(bytes: Seq<u8>, base: int, n: int, unicode: bool)
    requires
        0 <= n <= bytes.len(),
        0 <= base,
        base + bytes.len() <= usize::MAX,
    ensures
        breaks_upto(bytes, base, n, unicode).len() <= n,
        forall|k: int|
            0 <= k < breaks_upto(bytes, base, n, unicode).len() ==> {
                let e = #[trigger] breaks_upto(bytes, base, n, unicode)[k];
                &&& base <= e.0 < base + n
                &&& e.0 + e.1.spec_len_bytes() <= base + bytes.len()
                &&& break_at(bytes, e.0 - base, unicode) == Some(e.1)
            },
        forall|j: int, k: int|
            0 <= j < k < breaks_upto(bytes, base, n, unicode).len() ==> (#[trigger] breaks_upto(
                bytes,
                base,
                n,
                unicode,
            )[j]).0 < (#[trigger] breaks_upto(bytes, base, n, unicode)[k]).0,
    decreases n,
{
    if n > 0 {
        lemma_breaks_upto(bytes, base, n - 1, unicode);
    }
}

/// Appends the line breaks of `text` to `v`, each with the index of its
/// first byte plus `base_idx`, and returns how many were appended. Line
/// breaks are line feeds and carriage returns followed by a line feed.
pub fn line_breaks(text: &str, v: &mut Vec<(usize, Break)>, base_idx: usize) -> (added: usize)
    requires
        base_idx + text.spec_bytes().len() <= usize::MAX,
    ensures
        final(v)@ == old(v)@ + breaks_of(text.spec_bytes(), base_idx as int, false),
        added == breaks_of(text.spec_bytes(), base_idx as int, false).len(),
        added <= text.spec_bytes().len(),
{
    find_line_breaks(text, v, base_idx, false)
}

/// Appends the line breaks of `text` to `v`, each with the index of its
/// first byte plus `base_idx`, and returns how many were appended. Where
/// `unicode` is set, a carriage return alone, a vertical tab, a form feed
/// and the chars U+0085, U+2028 and U+2029 are line breaks too.
pub fn find_line_breaks(
    text: &str,
    v: &mut Vec<(usize, Break)>,
    base_idx: usize,
    unicode: bool,
) -> (added: usize)
    requires
        base_idx + text.spec_bytes().len() <= usize::MAX,
    ensures
        final(v)@ == old(v)@ + breaks_of(text.spec_bytes(), base_idx as int, unicode),
        added == breaks_of(text.spec_bytes(), base_idx as int, unicode).len(),
        added <= text.spec_bytes().len(),
{
    let bytes = text.as_bytes();
    let n: usize = bytes.len();
    let mut i: usize = 0;
    let mut added: usize = 0;
    while i < n
        invariant
            n == bytes@.len(),
            bytes@ == text.spec_bytes(),
            base_idx + n <= usize::MAX,
            0 <= i <= n,
            added <= i,
            added == breaks_upto(bytes@, base_idx as int, i as int, unicode).len(),
            v@ == old(v)@ + breaks_upto(bytes@, base_idx as int, i as int, unicode),
            0 < i < n && bytes@[i as int] == 0x0A ==> bytes@[i - 1] != 0x0D,
        decreases n - i,
    {
        let byte: u8 = bytes[i];
        let mut step: usize = 1;
        if byte == 0x0A {
            v.push((base_idx + i, Break::Lf));
            added = added + 1;
        } else if byte == 0x0D {
            if i + 1 < n && bytes[i + 1] == 0x0A {
                v.push((base_idx + i, Break::Crlf));
                added = added + 1;
                step = 2;
            } else if unicode {
                v.push((base_idx + i, Break::Cr));
                added = added + 1;
            }
        } else if unicode {
            if byte == 0x0B {
                v.push((base_idx + i, Break::Vt));
                added = added + 1;
            } else if byte == 0x0C {
                v.push((base_idx + i, Break::Ff));
                added = added + 1;
            } else if byte == 0xC2 && i + 1 < n && bytes[i + 1] == 0x85 {
                v.push((base_idx + i, Break::Nel));
                added = added + 1;
                step = 2;
            } else if byte == 0xE2 && n - i > 2 && bytes[i + 1] == 0x80 {
                if bytes[i + 2] == 0xA8 {
                    v.push((base_idx + i, Break::Ls));
                    added = added + 1;
                    step = 3;
                } else if bytes[i + 2] == 0xA9 {
                    v.push((base_idx + i, Break::Ps));
                    added = added + 1;
                    step = 3;
                }
            }
        }
        proof {
            let at = i as int;
            let base = base_idx as int;
            if step >= 2 {
                assert(break_at(bytes@, at + 1, unicode) == None::<Break>);
                assert(breaks_upto(bytes@, base, at + 2, unicode) == breaks_upto(
                    bytes@,
                    base,
                    at + 1,
                    unicode,
                ));
            }
            if step == 3 {
                assert(break_at(bytes@, at + 2, unicode) == None::<Break>);
                assert(breaks_upto(bytes@, base, at + 3, unicode) == breaks_upto(
                    bytes@,
                    base,
                    at + 2,
                    unicode,
                ));
            }
        }
        i = i + step;
    }
    added
}

} // verus!
