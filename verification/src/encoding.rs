//! Facts on UTF-8 that the table needs: lengths, char boundaries, and cuts.

use vstd::prelude::*;
use vstd::string::*;
use vstd::utf8::*;

verus! {

/// The number of bytes that the UTF-8 encoding of `chars` takes.
pub open spec fn utf8_len(chars: Seq<char>) -> nat {
    encode_utf8(chars).len()
}

/// `k` is a position of `bytes` at which a char starts, or its end.
pub open spec fn boundary(bytes: Seq<u8>, k: int) -> bool {
    0 <= k <= bytes.len() && (k == bytes.len() || !is_continuation_byte(bytes[k]))
}

/// Encoding distributes over concatenation.
pub proof fn lemma_encode_concat(a: Seq<char>, b: Seq<char>)
    ensures
        encode_utf8(a + b) =~= encode_utf8(a) + encode_utf8(b),
        utf8_len(a + b) == utf8_len(a) + utf8_len(b),
    decreases a.len(),
{
    if a.len() == 0 {
        assert(a + b =~= b);
    } else {
        assert((a + b).drop_first() =~= a.drop_first() + b);
        lemma_encode_concat(a.drop_first(), b);
    }
}

/// Every char takes at least one byte.
pub proof fn lemma_utf8_len_bounds(a: Seq<char>)
    ensures
        a.len() <= utf8_len(a),
    decreases a.len(),
{
    if a.len() > 0 {
        lemma_utf8_len_bounds(a.drop_first());
    }
}

/// No char takes more than four bytes.
pub proof fn lemma_utf8_len_at_most(a: Seq<char>)
    ensures
        utf8_len(a) <= 4 * a.len(),
    decreases a.len(),
{
    if a.len() > 0 {
        lemma_utf8_len_at_most(a.drop_first());
    }
}

/// In valid UTF-8, the recursive notion of a char boundary and the local
/// one agree.
pub proof fn lemma_boundary_iff(bytes: Seq<u8>, k: int)
    requires
        valid_utf8(bytes),
    ensures
        boundary(bytes, k) <==> (0 <= k <= bytes.len() && is_char_boundary(bytes, k)),
{
    if 0 <= k < bytes.len() {
        is_char_boundary_iff_not_is_continuation_byte(bytes, k);
    } else if k == bytes.len() {
        is_char_boundary_start_end_of_seq(bytes);
    }
}

/// A boundary of `x` is a boundary of `x + y`.
pub proof fn lemma_boundary_extend(x: Seq<u8>, y: Seq<u8>, k: int)
    requires
        valid_utf8(y),
        boundary(x, k),
    ensures
        boundary(x + y, k),
{
    if k == x.len() && y.len() > 0 {
        lemma_boundary_iff(y, 0);
        assert((x + y)[k] == y[0]);
    }
}

/// The bytes between two boundaries of valid UTF-8 are valid UTF-8.
pub proof fn lemma_range_valid(bytes: Seq<u8>, s: int, e: int)
    requires
        valid_utf8(bytes),
        boundary(bytes, s),
        boundary(bytes, e),
        s <= e,
    ensures
        valid_utf8(bytes.subrange(s, e)),
        valid_utf8(bytes.subrange(0, e)),
        is_char_boundary(bytes, e),
        is_char_boundary(bytes.subrange(0, e), s),
{
    lemma_boundary_iff(bytes, e);
    valid_utf8_split(bytes, e);
    let head = bytes.subrange(0, e);
    lemma_boundary_iff(head, s);
    valid_utf8_split(head, s);
    assert(head.subrange(s, head.len() as int) =~= bytes.subrange(s, e));
}

/// Cutting a range of valid UTF-8 after its first `n` chars: the cut falls
/// on a boundary, and the two parts decode to the first `n` chars and to
/// the rest.
#[verifier::rlimit(40)]
pub proof fn lemma_range_split(bytes: Seq<u8>, s: int, e: int, n: int)
    requires
        valid_utf8(bytes),
        boundary(bytes, s),
        boundary(bytes, e),
        s <= e,
        0 <= n <= decode_utf8(bytes.subrange(s, e)).len(),
    ensures
        ({
            let chars = decode_utf8(bytes.subrange(s, e));
            let cut = s + utf8_len(chars.subrange(0, n));
            &&& s <= cut <= e
            &&& boundary(bytes, cut)
            &&& decode_utf8(bytes.subrange(s, cut)) == chars.subrange(0, n)
            &&& decode_utf8(bytes.subrange(cut, e)) == chars.subrange(n, chars.len() as int)
            &&& (n > 0 ==> s < cut)
            &&& (n < chars.len() ==> cut < e)
            &&& e - cut == utf8_len(chars.subrange(n, chars.len() as int))
        }),
{
    lemma_range_valid(bytes, s, e);
    let part = bytes.subrange(s, e);
    let chars = decode_utf8(part);
    let head = chars.subrange(0, n);
    let tail = chars.subrange(n, chars.len() as int);
    let cut = s + utf8_len(head);
    decode_utf8_encode_utf8(part);
    assert(chars =~= head + tail);
    lemma_encode_concat(head, tail);
    assert(part =~= encode_utf8(head) + encode_utf8(tail));
    assert(bytes.subrange(s, cut) =~= encode_utf8(head));
    let head_bytes = encode_utf8(head);
    let tail_bytes = encode_utf8(tail);
    assert(part.len() == head_bytes.len() + tail_bytes.len());
    assert forall|i: int| 0 <= i < tail_bytes.len() implies bytes.subrange(cut, e)[i]
        == tail_bytes[i] by {
        assert(part[head_bytes.len() + i] == tail_bytes[i]);
    }
    assert(bytes.subrange(cut, e) =~= tail_bytes);
    encode_utf8_decode_utf8(head);
    encode_utf8_decode_utf8(tail);
    lemma_utf8_len_bounds(head);
    lemma_utf8_len_bounds(tail);
    if cut < e {
        encode_utf8_valid_utf8(tail);
        lemma_boundary_iff(encode_utf8(tail), 0);
        assert(bytes[cut] == encode_utf8(tail)[0]);
    }
}

/// Valid UTF-8 between two boundaries, cut at a boundary between them,
/// decodes to what the first part decodes to and then what the second does.
pub proof fn lemma_decode_two(bytes: Seq<u8>, a: int, b: int, c: int)
    requires
        valid_utf8(bytes),
        boundary(bytes, a),
        boundary(bytes, b),
        boundary(bytes, c),
        a <= b <= c,
    ensures
        decode_utf8(bytes.subrange(a, c)) == decode_utf8(bytes.subrange(a, b)) + decode_utf8(
            bytes.subrange(b, c),
        ),
{
    lemma_range_valid(bytes, a, c);
    let part = bytes.subrange(a, c);
    assert(boundary(part, b - a)) by {
        if b < c {
            assert(part[b - a] == bytes[b]);
        }
    }
    lemma_boundary_iff(part, b - a);
    decode_utf8_split(part, b - a);
    assert(part.subrange(0, b - a) =~= bytes.subrange(a, b));
    assert(part.subrange(b - a, part.len() as int) =~= bytes.subrange(b, c));
}

/// In valid UTF-8, from a boundary on, a later boundary has at least as
/// many chars before it as an earlier one, and more where it lies later.
pub proof fn lemma_chars_grow(bytes: Seq<u8>, a: int, b: int, c: int)
    requires
        valid_utf8(bytes),
        boundary(bytes, a),
        boundary(bytes, b),
        boundary(bytes, c),
        a <= b <= c,
    ensures
        decode_utf8(bytes.subrange(a, b)).len() <= decode_utf8(bytes.subrange(a, c)).len(),
        b < c ==> decode_utf8(bytes.subrange(a, b)).len() < decode_utf8(bytes.subrange(a, c)).len(),
{
    lemma_decode_two(bytes, a, b, c);
    lemma_range_valid(bytes, b, c);
    if b < c {
        let part = bytes.subrange(b, c);
        decode_utf8_encode_utf8(part);
        if decode_utf8(part).len() == 0 {
            assert(decode_utf8(part) =~= Seq::<char>::empty());
            assert(encode_utf8(Seq::<char>::empty()).len() == 0);
        }
    }
}

/// In valid UTF-8, the position after a byte below 0x80 is a boundary.
pub proof fn lemma_after_ascii(bytes: Seq<u8>, k: int)
    requires
        valid_utf8(bytes),
        0 <= k < bytes.len(),
        bytes[k] < 0x80,
    ensures
        boundary(bytes, k),
        boundary(bytes, k + 1),
{
    lemma_boundary_iff(bytes, k);
    valid_utf8_split(bytes, k);
    let tail = bytes.subrange(k, bytes.len() as int);
    assert(tail[0] == bytes[k]);
    assert(valid_utf8(pop_first_scalar(tail)));
    assert(pop_first_scalar(tail) =~= bytes.subrange(k + 1, bytes.len() as int));
    if k + 1 < bytes.len() {
        let next = bytes.subrange(k + 1, bytes.len() as int);
        lemma_boundary_iff(next, 0);
        assert(next[0] == bytes[k + 1]);
    }
}

/// In valid UTF-8, the position after a char of two or three bytes is a
/// boundary, as is the position of its first byte.
pub proof fn lemma_after_lead(bytes: Seq<u8>, k: int, width: int)
    requires
        valid_utf8(bytes),
        0 <= k < bytes.len(),
        width == 2 || width == 3,
        width == 2 ==> is_leading_byte_width_2(bytes[k]),
        width == 3 ==> is_leading_byte_width_3(bytes[k]),
    ensures
        boundary(bytes, k),
        k + width <= bytes.len(),
        boundary(bytes, k + width),
        forall|j: int| k < j < k + width ==> is_continuation_byte(#[trigger] bytes[j]),
{
    lemma_boundary_iff(bytes, k);
    valid_utf8_split(bytes, k);
    let tail = bytes.subrange(k, bytes.len() as int);
    assert(tail[0] == bytes[k]);
    assert(valid_first_scalar(tail));
    assert(length_of_first_scalar(tail) == width);
    assert(valid_utf8(pop_first_scalar(tail)));
    assert(pop_first_scalar(tail) =~= bytes.subrange(k + width, bytes.len() as int));
    assert forall|j: int| k < j < k + width implies is_continuation_byte(#[trigger] bytes[j]) by {
        assert(tail[j - k] == bytes[j]);
    }
    if k + width < bytes.len() {
        let next = bytes.subrange(k + width, bytes.len() as int);
        lemma_boundary_iff(next, 0);
        assert(next[0] == bytes[k + width]);
    }
}

/// A carriage return and a line feed are one byte each in UTF-8.
pub proof fn lemma_cr_lf()
    ensures
        decode_utf8(seq![0x0Du8]) == seq!['\r'],
        decode_utf8(seq![0x0Au8]) == seq!['\n'],
{
    let cr = seq!['\r'];
    let lf = seq!['\n'];
    assert(is_ascii_chars(cr));
    assert(is_ascii_chars(lf));
    is_ascii_chars_encode_utf8(cr);
    is_ascii_chars_encode_utf8(lf);
    assert(encode_utf8(cr) =~= seq![0x0Du8]);
    assert(encode_utf8(lf) =~= seq![0x0Au8]);
    encode_utf8_decode_utf8(cr);
    encode_utf8_decode_utf8(lf);
}

/// Where, in valid UTF-8 between two boundaries, the cut after the first
/// `n` chars falls between a carriage return and a line feed, those are the
/// chars before and after the cut.
#[verifier::rlimit(40)]
pub proof fn lemma_cut_in_crlf(bytes: Seq<u8>, s: int, e: int, n: int)
    requires
        valid_utf8(bytes),
        boundary(bytes, s),
        boundary(bytes, e),
        s <= e,
        0 < n < decode_utf8(bytes.subrange(s, e)).len(),
        ({
            let chars = decode_utf8(bytes.subrange(s, e));
            let cut = s + utf8_len(chars.subrange(0, n));
            bytes[cut - 1] == 0x0D && bytes[cut] == 0x0A
        }),
    ensures
        decode_utf8(bytes.subrange(s, e))[n - 1] == '\r',
        decode_utf8(bytes.subrange(s, e))[n] == '\n',
{
    let chars = decode_utf8(bytes.subrange(s, e));
    let cut = s + utf8_len(chars.subrange(0, n));
    lemma_range_split(bytes, s, e, n);
    lemma_after_ascii(bytes, cut - 1);
    lemma_after_ascii(bytes, cut);
    lemma_cr_lf();
    lemma_decode_two(bytes, s, cut - 1, cut);
    lemma_decode_two(bytes, cut, cut + 1, e);
    assert(bytes.subrange(cut - 1, cut) =~= seq![0x0Du8]);
    assert(bytes.subrange(cut, cut + 1) =~= seq![0x0Au8]);
    let head = chars.subrange(0, n);
    let tail = chars.subrange(n, chars.len() as int);
    assert(head[n - 1] == '\r');
    assert(tail[0] == '\n');
}

/// A borrowed part of `s`, between two char boundaries given in bytes.
pub fn slice_str<'a>(s: &'a str, start: usize, end: usize) -> (r: &'a str)
    requires
        start <= end,
        boundary(s.spec_bytes(), start as int),
        boundary(s.spec_bytes(), end as int),
    ensures
        r.spec_bytes() == s.spec_bytes().subrange(start as int, end as int),
        r@ == decode_utf8(s.spec_bytes().subrange(start as int, end as int)),
{
    proof {
        encode_utf8_valid_utf8(s@);
        lemma_range_valid(s.spec_bytes(), start as int, end as int);
    }
    let (head, _) = s.split_at(end);
    proof {
        assert(head.spec_bytes() =~= s.spec_bytes().subrange(0, end as int));
    }
    let (_, r) = head.split_at(start);
    proof {
        assert(r.spec_bytes() =~= s.spec_bytes().subrange(start as int, end as int));
        encode_utf8_decode_utf8(r@);
    }
    r
}

} // verus!
