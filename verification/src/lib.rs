//! Percent-encoding codec.
//!
//! Text is turned into an ASCII-safe form in which every character outside
//! the unreserved set (ASCII alphanumerics plus `-`, `.`, `_`, `~`) appears
//! as one `%XX` triplet per byte of its UTF-8 encoding, and back again.
//! A form/URL dialect additionally writes the space character as `+`.
//! Strict decode variants reject inputs holding characters the matching
//! encoder would never leave unescaped.

pub mod classify;
pub mod decode;
pub mod encode;
pub mod hex;
pub mod laws;
pub mod text;

pub use classify::{is_reserved, is_whitespace};
pub use decode::{decode, strict_decode, strict_url_decode, url_decode, DecodeError};
pub use encode::{encode, url_encode};
