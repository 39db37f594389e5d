//! Width-bounded chunking of UTF-8 text.
//!
//! A text is cut into successive chunks whose display width, counted in
//! terminal columns, stays within a caller-supplied limit. A cut never falls
//! inside a multi-byte character, and the chunks, joined in order, give the
//! text back.
//!
//! * [`decode`] reads one character from the front of a UTF-8 byte sequence.
//! * [`width`] looks up how many columns a character takes.
//! * [`boundary`] holds what the chunker needs to know of character
//!   boundaries.
//! * [`layout`] is the mathematical model: where a text is cut, and what
//!   holds of the cuts.
//! * [`chunks`] is the chunker itself, a cursor over a borrowed text.
//!
//! A character that is wider than the limit is a chunk by itself, and so is
//! every character of some width where the limit is 0: a chunk is never
//! empty, and a traversal always comes to its end.

pub mod decode;
pub mod width;
pub mod boundary;
pub mod layout;
pub mod chunks;

pub use chunks::{Chunks, UnicodeStrExt};
pub use decode::{decode_one, next_utf8_char, InvalidEncoding};
pub use width::display_width;
