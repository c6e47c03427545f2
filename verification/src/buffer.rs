//! The two buffers of a piece table and their registries of line breaks.

use vstd::prelude::*;
use vstd::string::*;
use vstd::utf8::*;
use crate::encoding::{boundary, lemma_after_ascii, lemma_after_lead, lemma_encode_concat};
use crate::line::Break;
use crate::str_utils::{break_at, breaks_of, find_line_breaks, lemma_breaks_upto};

verus! {

/// Selects one of the two buffers.
#[derive(Debug, Clone, Copy, PartialEq, Eq, Structural)]
pub enum BufferType {
    Original,
    Add,
}

/// A text and the registry of its line breaks: for each, the index of its
/// first byte and its kind.
#[derive(Debug)]
pub struct Buffer<T> {
    pub content: T,
    pub line_breaks: Vec<(usize, Break)>,
}

/// The original text, which is borrowed and never changes, and the add
/// buffer, to which inserted text is appended.
#[derive(Debug)]
pub struct Buffers<'b> {
    pub original: Buffer<&'b str>,
    pub add: Buffer<String>,
    /// Whether a carriage return alone, a vertical tab, a form feed and the
    /// chars U+0085, U+2028 and U+2029 are line breaks.
    pub unicode: bool,
}

/// The entry lies within `bytes`, on the bytes of its kind.
pub open spec fn entry_ok(bytes: Seq<u8>, e: (usize, Break)) -> bool {
    &&& e.0 + e.1.spec_len_bytes() <= bytes.len()
    &&& match e.1 {
        Break::Lf => bytes[e.0 as int] == 0x0A,
        Break::Crlf => bytes[e.0 as int] == 0x0D && bytes[e.0 + 1] == 0x0A,
        Break::Vt => bytes[e.0 as int] == 0x0B,
        Break::Ff => bytes[e.0 as int] == 0x0C,
        Break::Cr => bytes[e.0 as int] == 0x0D,
        Break::Nel => bytes[e.0 as int] == 0xC2 && bytes[e.0 + 1] == 0x85,
        Break::Ls => bytes[e.0 as int] == 0xE2 && bytes[e.0 + 1] == 0x80 && bytes[e.0 + 2] == 0xA8,
        Break::Ps => bytes[e.0 as int] == 0xE2 && bytes[e.0 + 1] == 0x80 && bytes[e.0 + 2] == 0xA9,
    }
}

/// Each entry starts where the one before it has ended, or later.
pub open spec fn ordered(reg: Seq<(usize, Break)>) -> bool {
    forall|j: int, k: int|
        0 <= j < k < reg.len() ==> (#[trigger] reg[j]).0 + reg[j].1.spec_len_bytes() <= (
        #[trigger] reg[k]).0
}

/// A registry of line breaks fits `bytes`: each entry lies on a line break
/// of `bytes`, and the entries are in order.
pub open spec fn registry_ok(bytes: Seq<u8>, reg: Seq<(usize, Break)>) -> bool {
    &&& reg.len() <= bytes.len()
    &&& forall|k: int| 0 <= k < reg.len() ==> entry_ok(bytes, #[trigger] reg[k])
    &&& ordered(reg)
}

/// In valid UTF-8, a line break starts at a char boundary and ends at one,
/// and no char starts within it but, in a carriage return with its line
/// feed, the line feed.
pub proof fn lemma_break_bounds(bytes: Seq<u8>, e: (usize, Break))
    requires
        valid_utf8(bytes),
        entry_ok(bytes, e),
    ensures
        boundary(bytes, e.0 as int),
        boundary(bytes, e.0 + e.1.spec_len_bytes()),
        forall|j: int|
            e.0 < j < e.0 + e.1.spec_len_bytes() && e.1 != Break::Crlf ==> !boundary(bytes, j),
{
    let at = e.0 as int;
    match e.1 {
        Break::Crlf => {
            lemma_after_ascii(bytes, at);
            lemma_after_ascii(bytes, at + 1);
        },
        Break::Nel => {
            lemma_after_lead(bytes, at, 2);
        },
        Break::Ls => {
            lemma_after_lead(bytes, at, 3);
        },
        Break::Ps => {
            lemma_after_lead(bytes, at, 3);
        },
        _ => {
            lemma_after_ascii(bytes, at);
        },
    }
}

/// The breaks found in a text form a registry that fits it.
pub proof fn lemma_breaks_of_ok(bytes: Seq<u8>, unicode: bool)
    requires
        bytes.len() <= usize::MAX,
    ensures
        registry_ok(bytes, breaks_of(bytes, 0, unicode)),
{
    lemma_registry_grows(Seq::<u8>::empty(), Seq::<(usize, Break)>::empty(), bytes, unicode);
    assert(Seq::<u8>::empty() + bytes =~= bytes);
    assert(Seq::<(usize, Break)>::empty() + breaks_of(bytes, 0, unicode) =~= breaks_of(
        bytes,
        0,
        unicode,
    ));
}

/// A registry that fits `bytes`, extended by the breaks found in `more`,
/// fits `bytes + more`.
#[verifier::rlimit(40)]
pub proof fn lemma_registry_grows(
    bytes: Seq<u8>,
    reg: Seq<(usize, Break)>,
    more: Seq<u8>,
    unicode: bool,
)
    requires
        registry_ok(bytes, reg),
        bytes.len() + more.len() <= usize::MAX,
    ensures
        registry_ok(bytes + more, reg + breaks_of(more, bytes.len() as int, unicode)),
{
    let base = bytes.len() as int;
    let found = breaks_of(more, base, unicode);
    let all = reg + found;
    let joined = bytes + more;
    lemma_breaks_upto(more, base, more.len() as int, unicode);
    assert forall|k: int| 0 <= k < all.len() implies entry_ok(joined, #[trigger] all[k]) by {
        if k < reg.len() {
            assert(entry_ok(bytes, reg[k]));
        } else {
            let e = found[k - reg.len()];
            assert(break_at(more, e.0 - base, unicode) == Some(e.1));
            assert(joined[e.0 as int] == more[e.0 - base]);
            if e.1.spec_len_bytes() >= 2 {
                assert(joined[e.0 + 1] == more[e.0 - base + 1]);
            }
            if e.1.spec_len_bytes() >= 3 {
                assert(joined[e.0 + 2] == more[e.0 - base + 2]);
            }
        }
    }
    assert forall|j: int, k: int| 0 <= j < k < all.len() implies (#[trigger] all[j]).0
        + all[j].1.spec_len_bytes() <= (#[trigger] all[k]).0 by {
        if k < reg.len() {
        } else if j < reg.len() {
            assert(entry_ok(bytes, reg[j]));
            let e = found[k - reg.len()];
        } else {
            let d = found[j - reg.len()];
            let e = found[k - reg.len()];
            assert(break_at(more, d.0 - base, unicode) == Some(d.1));
            assert(break_at(more, e.0 - base, unicode) == Some(e.1));
        }
    }
}

impl<'b> Buffers<'b> {
    /// The text of a buffer.
    pub open spec fn chars(&self, ty: BufferType) -> Seq<char> {
        match ty {
            BufferType::Original => self.original.content@,
            BufferType::Add => self.add.content@,
        }
    }

    /// The bytes of a buffer: its text in UTF-8.
    pub open spec fn bytes(&self, ty: BufferType) -> Seq<u8> {
        encode_utf8(self.chars(ty))
    }

    /// The registry of line breaks of a buffer.
    pub open spec fn registry(&self, ty: BufferType) -> Seq<(usize, Break)> {
        match ty {
            BufferType::Original => self.original.line_breaks@,
            BufferType::Add => self.add.line_breaks@,
        }
    }

    /// The number of bytes that the two buffers hold together.
    pub open spec fn stored(&self) -> nat {
        self.bytes(BufferType::Original).len() + self.bytes(BufferType::Add).len()
    }

    /// The number of line breaks that the two registries hold together.
    pub open spec fn registered(&self) -> nat {
        self.registry(BufferType::Original).len() + self.registry(BufferType::Add).len()
    }

    /// Each registry fits its buffer, and the lengths leave room for the
    /// counters of a table.
    pub open spec fn wf(&self) -> bool {
        &&& registry_ok(self.bytes(BufferType::Original), self.registry(BufferType::Original))
        &&& registry_ok(self.bytes(BufferType::Add), self.registry(BufferType::Add))
        &&& self.stored() < usize::MAX
    }

    /// The buffers of a new table: `initial` with its line breaks, and an
    /// empty add buffer. Line breaks are line feeds and carriage returns
    /// followed by a line feed.
    pub fn from_initial(initial: &'b str) -> (bufs: Self)
        requires
            initial.spec_bytes().len() < usize::MAX,
        ensures
            bufs.wf(),
            !bufs.unicode,
            bufs.chars(BufferType::Original) == initial@,
            bufs.chars(BufferType::Add) == Seq::<char>::empty(),
            bufs.registry(BufferType::Original) == breaks_of(initial.spec_bytes(), 0, false),
            bufs.registry(BufferType::Add) == Seq::<(usize, Break)>::empty(),
    {
        Buffers::with_line_breaks(initial, false)
    }

    /// The buffers of a new table: `initial` with its line breaks, and an
    /// empty add buffer. Where `unicode` is set, a carriage return alone, a
    /// vertical tab, a form feed and the chars U+0085, U+2028 and U+2029
    /// are line breaks too.
    pub fn with_line_breaks(initial: &'b str, unicode: bool) -> (bufs: Self)
        requires
            initial.spec_bytes().len() < usize::MAX,
        ensures
            bufs.wf(),
            bufs.unicode == unicode,
            bufs.chars(BufferType::Original) == initial@,
            bufs.chars(BufferType::Add) == Seq::<char>::empty(),
            bufs.registry(BufferType::Original) == breaks_of(initial.spec_bytes(), 0, unicode),
            bufs.registry(BufferType::Add) == Seq::<(usize, Break)>::empty(),
    {
        let mut found: Vec<(usize, Break)> = Vec::new();
        find_line_breaks(initial, &mut found, 0, unicode);
        proof {
            lemma_breaks_of_ok(initial.spec_bytes(), unicode);
            assert(found@ =~= breaks_of(initial.spec_bytes(), 0, unicode));
        }
        Buffers {
            original: Buffer { content: initial, line_breaks: found },
            add: Buffer { content: String::new(), line_breaks: Vec::new() },
            unicode,
        }
    }

    /// The registry of line breaks of a buffer.
    pub fn line_breaks(&self, ty: BufferType) -> (reg: &[(usize, Break)])
        ensures
            reg@ == self.registry(ty),
    {
        match ty {
            BufferType::Original => self.original.line_breaks.as_slice(),
            BufferType::Add => self.add.line_breaks.as_slice(),
        }
    }

    /// The text of a buffer.
    pub fn index(&self, ty: BufferType) -> (text: &str)
        ensures
            text@ == self.chars(ty),
            text.spec_bytes() == self.bytes(ty),
    {
        match ty {
            BufferType::Original => self.original.content,
            BufferType::Add => self.add.content.as_str(),
        }
    }

    /// Appends `text` to the add buffer and its line breaks to the registry
    /// of the add buffer, and returns the number of those line breaks.
    #[verifier::rlimit(40)]
    pub fn push_text(&mut self, text: &str) -> (added: usize)
        requires
            old(self).wf(),
            old(self).stored() + text.spec_bytes().len() < usize::MAX,
        ensures
            final(self).wf(),
            final(self).unicode == old(self).unicode,
            final(self).original == old(self).original,
            final(self).chars(BufferType::Add) == old(self).chars(BufferType::Add) + text@,
            final(self).bytes(BufferType::Add) == old(self).bytes(BufferType::Add)
                + text.spec_bytes(),
            final(self).registry(BufferType::Add) == old(self).registry(BufferType::Add)
                + breaks_of(
                text.spec_bytes(),
                old(self).bytes(BufferType::Add).len() as int,
                old(self).unicode,
            ),
            added == breaks_of(
                text.spec_bytes(),
                old(self).bytes(BufferType::Add).len() as int,
                old(self).unicode,
            ).len(),
            added <= text.spec_bytes().len(),
    {
        let base: usize = self.add.content.as_str().len();
        let added: usize = find_line_breaks(text, &mut self.add.line_breaks, base, self.unicode);
        self.add.content.append(text);
        proof {
            lemma_encode_concat(old(self).chars(BufferType::Add), text@);
            lemma_registry_grows(
                old(self).bytes(BufferType::Add),
                old(self).registry(BufferType::Add),
                text.spec_bytes(),
                old(self).unicode,
            );
        }
        added
    }
}

} // verus!
