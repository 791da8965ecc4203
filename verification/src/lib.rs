//! A reversible transcoder between raw bytes and a fixed alphabet of visible
//! multi-codepoint symbols ("glyphs"), with a string-level framing layer.
//!
//! Every byte value has a unique glyph; a text is encoded by mapping each of
//! its UTF-8 bytes to that byte's glyph and concatenating the results, each
//! glyph carrying a trailing two-codepoint marker. Decoding detects which of
//! two historical framing conventions produced the input, splits it into
//! glyph segments, maps each segment back to its byte, and reassembles the
//! bytes as text.

use vstd::prelude::*;

pub mod codec;
pub mod glyphs;

verus! {

pub use crate::codec::TranslationError;
pub use crate::codec::decode_byte;
pub use crate::codec::decode_string;
pub use crate::codec::encode_string;
pub use crate::glyphs::encode_byte;

} // verus!
