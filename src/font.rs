//! The glyphs that label a graduated sheet: the hexadecimal digits as CHR tiles.
use vstd::prelude::*;

use crate::chr::{decoded_all, pattern_view, pattern_wf, read_bytes, ChrPixelPattern};

verus! {

/// The digits 0 to F as sixteen CHR tiles, glyph `d` for digit value `d`. Each glyph
/// draws with pixel value 1 only: its second bit-plane is blank.
pub const HEX_FONT: [u8; 256] = [
    0x3C, 0x66, 0x6E, 0x76, 0x66, 0x66, 0x3C, 0x00, 0x00, 0x00, 0x00, 0x00, 0x00, 0x00, 0x00, 0x00,  // 0
    0x18, 0x38, 0x18, 0x18, 0x18, 0x18, 0x7E, 0x00, 0x00, 0x00, 0x00, 0x00, 0x00, 0x00, 0x00, 0x00,  // 1
    0x3C, 0x66, 0x06, 0x0C, 0x30, 0x60, 0x7E, 0x00, 0x00, 0x00, 0x00, 0x00, 0x00, 0x00, 0x00, 0x00,  // 2
    0x3C, 0x66, 0x06, 0x1C, 0x06, 0x66, 0x3C, 0x00, 0x00, 0x00, 0x00, 0x00, 0x00, 0x00, 0x00, 0x00,  // 3
    0x0C, 0x1C, 0x3C, 0x6C, 0x7E, 0x0C, 0x0C, 0x00, 0x00, 0x00, 0x00, 0x00, 0x00, 0x00, 0x00, 0x00,  // 4
    0x7E, 0x60, 0x7C, 0x06, 0x06, 0x66, 0x3C, 0x00, 0x00, 0x00, 0x00, 0x00, 0x00, 0x00, 0x00, 0x00,  // 5
    0x3C, 0x60, 0x7C, 0x66, 0x66, 0x66, 0x3C, 0x00, 0x00, 0x00, 0x00, 0x00, 0x00, 0x00, 0x00, 0x00,  // 6
    0x7E, 0x06, 0x0C, 0x18, 0x30, 0x30, 0x30, 0x00, 0x00, 0x00, 0x00, 0x00, 0x00, 0x00, 0x00, 0x00,  // 7
    0x3C, 0x66, 0x66, 0x3C, 0x66, 0x66, 0x3C, 0x00, 0x00, 0x00, 0x00, 0x00, 0x00, 0x00, 0x00, 0x00,  // 8
    0x3C, 0x66, 0x66, 0x3E, 0x06, 0x0C, 0x38, 0x00, 0x00, 0x00, 0x00, 0x00, 0x00, 0x00, 0x00, 0x00,  // 9
    0x18, 0x3C, 0x66, 0x66, 0x7E, 0x66, 0x66, 0x00, 0x00, 0x00, 0x00, 0x00, 0x00, 0x00, 0x00, 0x00,  // A
    0x7C, 0x66, 0x66, 0x7C, 0x66, 0x66, 0x7C, 0x00, 0x00, 0x00, 0x00, 0x00, 0x00, 0x00, 0x00, 0x00,  // B
    0x3C, 0x66, 0x60, 0x60, 0x60, 0x66, 0x3C, 0x00, 0x00, 0x00, 0x00, 0x00, 0x00, 0x00, 0x00, 0x00,  // C
    0x78, 0x6C, 0x66, 0x66, 0x66, 0x6C, 0x78, 0x00, 0x00, 0x00, 0x00, 0x00, 0x00, 0x00, 0x00, 0x00,  // D
    0x7E, 0x60, 0x60, 0x7C, 0x60, 0x60, 0x7E, 0x00, 0x00, 0x00, 0x00, 0x00, 0x00, 0x00, 0x00, 0x00,  // E
    0x7E, 0x60, 0x60, 0x7C, 0x60, 0x60, 0x60, 0x00, 0x00, 0x00, 0x00, 0x00, 0x00, 0x00, 0x00, 0x00,  // F
];

/// The font's glyphs as tiles, glyph `d` at position `d`.
pub open spec fn hex_glyphs() -> Seq<Seq<Seq<u8>>> {
    decoded_all(HEX_FONT@)
}

/// Decodes the font into its sixteen glyphs.
pub fn read_hex_font() -> (r: Vec<ChrPixelPattern>)
    ensures
        r@.len() == 16,
        forall|d: int| 0 <= d < 16 ==> pattern_view(#[trigger] r@[d]) == hex_glyphs()[d],
        forall|d: int| 0 <= d < 16 ==> pattern_wf(pattern_view(#[trigger] r@[d])),
{
    let mut bytes: Vec<u8> = Vec::new();
    let mut i: usize = 0;
    while i < 256
        invariant
            0 <= i <= 256,
            bytes@ == HEX_FONT@.take(i as int),
        decreases 256 - i,
    {
        bytes.push(HEX_FONT[i]);
        assert(HEX_FONT@.take(i as int).push(HEX_FONT@[i as int]) =~= HEX_FONT@.take(i + 1));
        i = i + 1;
    }
    assert(HEX_FONT@.take(256) =~= HEX_FONT@);
    match read_bytes(bytes) {
        Ok(glyphs) => {
            proof {
                assert forall|d: int| 0 <= d < 16 implies pattern_wf(pattern_view(#[trigger] glyphs@[d])) by {
                    crate::chr::lemma_decoded_wf(HEX_FONT@.subrange(16 * d, 16 * d + 16));
                }
            }
            glyphs
        },
        Err(_) => {
            // 256 bytes are sixteen whole chunks: decoding cannot fail
            proof {
                assert(false);
            }
            Vec::new()
        },
    }
}

} // verus!
