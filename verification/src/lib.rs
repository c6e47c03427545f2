//! A UTF-8, char and line oriented piece table for text editing.
//!
//! The document is a list of pieces, each a view into one of two buffers:
//! the original text, which is never changed, and the add buffer, which only
//! grows. Every operation carries a contract over the document as a sequence
//! of chars: [`PieceTable::insert`] and [`PieceTable::remove`] say what the
//! text is afterwards and how many lines it has, [`PieceTable::text`] and
//! [`PieceTable::iter`] give that text, and [`PieceTable::line`] gives a
//! line of it as a [`Slice`].
//!
//! Line breaks are line feeds and carriage returns followed by a line feed
//! and, where a table is made with that option, also a carriage return
//! alone, a vertical tab, a form feed and the chars U+0085, U+2028 and
//! U+2029. They are found when text comes into a buffer, and a line break
//! counts for a table while it lies wholly within one piece.

pub mod buffer;
pub mod encoding;
pub mod insert;
pub mod kept;
pub mod laws;
pub mod line;
pub mod lines;
pub mod piece;
pub mod range;
pub mod registry;
pub mod remove;
pub mod slice;
pub mod split;
pub mod str_utils;
pub mod table;
pub mod tiling;

pub use buffer::{Buffer, BufferType, Buffers};
pub use line::Break;
pub use piece::Piece;
pub use range::CharBound;
pub use slice::Slice;
pub use table::PieceTable;
