//! The kinds of line breaks.

use vstd::prelude::*;
use vstd::utf8::*;

verus! {

/// A recognised line terminator.
#[derive(Debug, PartialEq, Eq, Clone, Copy, Structural)]
pub enum Break {
    /// Line Feed, U+000A
    Lf,
    /// CR (U+000D) followed by LF (U+000A)
    Crlf,
    /// Vertical Tab, U+000B
    Vt,
    /// Form Feed, U+000C
    Ff,
    /// Carriage Return, U+000D
    Cr,
    /// Next Line, U+0085
    Nel,
    /// Line Separator, U+2028
    Ls,
    /// Paragraph Separator, U+2029
    Ps,
}

impl Break {
    /// The number of chars of this line break, as a specification.
    pub open spec fn spec_len_chars(&self) -> nat {
        match self {
            Break::Crlf => 2,
            _ => 1,
        }
    }

    /// The number of bytes of this line break, as a specification.
    pub open spec fn spec_len_bytes(&self) -> nat {
        match self {
            Break::Lf => 1,
            Break::Crlf => 2,
            Break::Vt => 1,
            Break::Ff => 1,
            Break::Cr => 1,
            Break::Nel => 2,
            Break::Ls => 3,
            Break::Ps => 3,
        }
    }

    /// The chars of this line break.
    pub open spec fn spec_chars(&self) -> Seq<char> {
        match self {
            Break::Lf => seq!['\n'],
            Break::Crlf => seq!['\r', '\n'],
            Break::Vt => seq!['\u{b}'],
            Break::Ff => seq!['\u{c}'],
            Break::Cr => seq!['\r'],
            Break::Nel => seq!['\u{85}'],
            Break::Ls => seq!['\u{2028}'],
            Break::Ps => seq!['\u{2029}'],
        }
    }

    /// The bytes of this line break.
    pub open spec fn spec_bytes(&self) -> Seq<u8> {
        match self {
            Break::Lf => seq![0x0Au8],
            Break::Crlf => seq![0x0Du8, 0x0Au8],
            Break::Vt => seq![0x0Bu8],
            Break::Ff => seq![0x0Cu8],
            Break::Cr => seq![0x0Du8],
            Break::Nel => seq![0xC2u8, 0x85u8],
            Break::Ls => seq![0xE2u8, 0x80u8, 0xA8u8],
            Break::Ps => seq![0xE2u8, 0x80u8, 0xA9u8],
        }
    }

    /// The bytes of a line break are its chars in UTF-8.
    pub proof fn lemma_bytes_of_chars(&self)
        ensures
            encode_utf8(self.spec_chars()) == self.spec_bytes(),
            decode_utf8(self.spec_bytes()) == self.spec_chars(),
            self.spec_bytes().len() == self.spec_len_bytes(),
            self.spec_chars().len() == self.spec_len_chars(),
    {
        let chars = self.spec_chars();
        match self {
            Break::Nel => {
                reveal_with_fuel(encode_utf8, 2);
                assert(chars[0] as u32 == 0x85u32);
                assert(0xC0u8 | (((0x85u32 >> 6) & 0x1F) as u8) == 0xC2u8) by (bit_vector);
                assert(0x80u8 | ((0x85u32 & 0x3F) as u8) == 0x85u8) by (bit_vector);
                assert(encode_scalar(0x85u32) =~= seq![0xC2u8, 0x85u8]);
                assert(chars.drop_first() =~= Seq::<char>::empty());
            },
            Break::Ls => {
                reveal_with_fuel(encode_utf8, 2);
                assert(chars[0] as u32 == 0x2028u32);
                assert(0xE0u8 | (((0x2028u32 >> 12) & 0x0F) as u8) == 0xE2u8) by (bit_vector);
                assert(0x80u8 | (((0x2028u32 >> 6) & 0x3F) as u8) == 0x80u8) by (bit_vector);
                assert(0x80u8 | ((0x2028u32 & 0x3F) as u8) == 0xA8u8) by (bit_vector);
                assert(encode_scalar(0x2028u32) =~= seq![0xE2u8, 0x80u8, 0xA8u8]);
                assert(chars.drop_first() =~= Seq::<char>::empty());
            },
            Break::Ps => {
                reveal_with_fuel(encode_utf8, 2);
                assert(chars[0] as u32 == 0x2029u32);
                assert(0xE0u8 | (((0x2029u32 >> 12) & 0x0F) as u8) == 0xE2u8) by (bit_vector);
                assert(0x80u8 | (((0x2029u32 >> 6) & 0x3F) as u8) == 0x80u8) by (bit_vector);
                assert(0x80u8 | ((0x2029u32 & 0x3F) as u8) == 0xA9u8) by (bit_vector);
                assert(encode_scalar(0x2029u32) =~= seq![0xE2u8, 0x80u8, 0xA9u8]);
                assert(chars.drop_first() =~= Seq::<char>::empty());
            },
            _ => {
                assert(is_ascii_chars(chars));
                is_ascii_chars_encode_utf8(chars);
            },
        }
        assert(encode_utf8(chars) =~= self.spec_bytes());
        encode_utf8_decode_utf8(chars);
    }

    /// The amount of characters this line break takes.
    pub fn len_chars(&self) -> (n: usize)
        ensures
            n == self.spec_len_chars(),
    {
        match self {
            Break::Crlf => 2,
            _ => 1,
        }
    }

    /// The amount of bytes this line break takes.
    pub fn len_bytes(&self) -> (n: usize)
        ensures
            n == self.spec_len_bytes(),
    {
        match self {
            Break::Lf => 1,
            Break::Crlf => 2,
            Break::Vt => 1,
            Break::Ff => 1,
            Break::Cr => 1,
            Break::Nel => 2,
            Break::Ls => 3,
            Break::Ps => 3,
        }
    }
}

} // verus!
