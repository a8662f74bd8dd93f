//! A verified piece-table text buffer.
//!
//! A document is represented as an ordered sequence of pieces, each a
//! reference into one of two backing buffers: the immutable original text
//! and an append-only buffer of inserted characters. Single-character
//! insertion and deletion splice the piece sequence instead of moving the
//! document's characters, and adjacent pieces over contiguous ranges of the
//! same buffer are merged eagerly so the sequence stays short.

pub mod edited_text;
pub mod lines;
pub mod piece;

pub use edited_text::EditedText;
pub use piece::Piece;
pub use piece::Which;
