//! Iteration over the characters of a string together with the byte range
//! that each character occupies in the string's UTF-8 encoding.
//!
//! A character takes between one and four bytes, so the range of the
//! character that starts at byte `i` is not simply `i..i + 1`.
//!
//! | Char | Bytes | Range |
//! |:----:|:-----:|:-----:|
//! | `'O'` | 1 | `0..1` |
//! | `'Ø'` | 2 | `0..2` |
//! | `'∈'` | 3 | `0..3` |
//! | `'🌏'` | 4 | `0..4` |
//!
//! [`CharRanges`] walks a string from either end; [`CharRangesOffset`] does
//! the same and shifts every range by a fixed amount, for a string that is
//! a slice of a larger one.
mod decode;
pub mod encoding;
pub mod ext;
pub mod laws;
pub mod offset;
pub mod ranges;

pub use ext::CharRangesExt;
pub use offset::CharRangesOffset;
pub use ranges::CharRanges;
