//! Decoding of 2-bit planar CHR tile graphics, palettes, and composition of
//! tiles into RGBA images: positioned atlases and graduated reference sheets.
use vstd::prelude::*;

pub mod atlas;
pub mod canvas;
pub mod chr;
pub mod font;
pub mod pal;
pub mod parse;
pub mod png;
pub mod render;

verus! {

/// Why decoding, rendering or parsing failed.
#[derive(Debug, PartialEq, Eq)]
pub enum Error {
    /// The tile source range lies beyond the end of the binary.
    SourceReadError,
    /// A byte count is not a multiple of the chunk size (16 for tiles, 3 for colours).
    MalformedChunk,
    /// An entry names a tile or a palette colour that does not exist.
    IndexOutOfRange(usize),
    /// An atlas description has too few header lines or an entry with the wrong field count.
    DescriptionShapeError,
    /// A numeric field of an atlas description is not a number in its base; holds the field.
    FieldParseError(String),
    /// The image encoder refused the image.
    EncodeError,
}

} // verus!
