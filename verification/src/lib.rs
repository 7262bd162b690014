//! A lazy, zero-copy splitter of a borrowed string slice.
//!
//! [`StrSplit`] walks a `&str` from left to right and hands out the pieces
//! that lie between the occurrences of a [`Delimiter`]. Every piece is a
//! sub-slice of the text that was passed in; nothing is copied.
//!
//! All contracts speak of a text as the sequence of its characters (the
//! view `s@` of a `&str`), while the executable code works on byte offsets
//! into the UTF-8 encoding, as `str` does.

pub mod delimiter;
pub mod laws;
pub mod offsets;
pub mod search;
pub mod split;

pub use delimiter::Delimiter;
pub use split::{until_char, StrSplit};
