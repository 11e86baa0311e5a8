use chr_reatlas::canvas::Canvas;
use chr_reatlas::chr::{read_single_chr, ChrPixelPattern};
use chr_reatlas::font::{read_hex_font, HEX_FONT};
use chr_reatlas::pal::ChrPalette;
use chr_reatlas::render::{
    append_pattern_on_image, get_patterns_as_png_bytes, render_pattern, render_patterns,
    render_patterns_with_graduations,
};
use chr_reatlas::Error;

const PNG_SIGNATURE: [u8; 8] = [0x89, b'P', b'N', b'G', 0x0D, 0x0A, 0x1A, 0x0A];
const WHITE: [u8; 4] = [255, 255, 255, 255];
const CLEAR: [u8; 4] = [0, 0, 0, 0];

fn palette() -> ChrPalette {
    ChrPalette { c0: [10, 20, 30], c1: [40, 50, 60], c2: [70, 80, 90], cbg: None }
}

/// A tile whose pixel (x, y) holds (x + y) % 4.
fn diagonal() -> ChrPixelPattern {
    let mut p = [[0u8; 8]; 8];
    for y in 0..8 {
        for x in 0..8 {
            p[y][x] = ((x + y) % 4) as u8;
        }
    }
    p
}

fn glyph(d: usize) -> ChrPixelPattern {
    let mut b = [0u8; 16];
    b.copy_from_slice(&HEX_FONT[16 * d..16 * d + 16]);
    read_single_chr(b)
}

/// Checks that the 8×8 window at (sx, sy) shows glyph `d` in white on transparent.
fn assert_glyph_at(img: &Canvas, d: usize, sx: u32, sy: u32) {
    let g = glyph(d);
    for y in 0..8u32 {
        for x in 0..8u32 {
            let expected = if g[y as usize][x as usize] == 0 { CLEAR } else { WHITE };
            assert_eq!(img.get_pixel(sx + x, sy + y), expected, "glyph {d} at ({}, {})", sx + x, sy + y);
        }
    }
}

#[test]
fn new_canvas_is_transparent() {
    let c = Canvas::new(3, 2);
    assert_eq!(c.width, 3);
    assert_eq!(c.height, 2);
    assert_eq!(c.pixels, vec![CLEAR; 6]);
}

#[test]
fn put_pixel_changes_one_pixel() {
    let mut c = Canvas::new(4, 3);
    c.put_pixel(2, 1, [1, 2, 3, 4]);
    assert_eq!(c.get_pixel(2, 1), [1, 2, 3, 4]);
    assert_eq!(c.pixels[1 * 4 + 2], [1, 2, 3, 4]);
    assert_eq!(c.pixels.iter().filter(|p| **p == CLEAR).count(), 11);
}

#[test]
fn rgba_bytes_are_row_major() {
    let mut c = Canvas::new(2, 2);
    c.put_pixel(1, 0, [1, 2, 3, 4]);
    c.put_pixel(0, 1, [5, 6, 7, 8]);
    assert_eq!(c.to_rgba_bytes(), vec![0, 0, 0, 0, 1, 2, 3, 4, 5, 6, 7, 8, 0, 0, 0, 0]);
}

#[test]
fn append_maps_values_to_colours() {
    let mut c = Canvas::new(12, 10);
    append_pattern_on_image(&mut c, diagonal(), 3, 2, palette());
    for y in 0..8u32 {
        for x in 0..8u32 {
            let expected = match (x + y) % 4 {
                0 => CLEAR,
                1 => [10, 20, 30, 255],
                2 => [40, 50, 60, 255],
                _ => [70, 80, 90, 255],
            };
            assert_eq!(c.get_pixel(x + 3, y + 2), expected);
        }
    }
    assert_eq!(c.get_pixel(0, 0), CLEAR);
    assert_eq!(c.get_pixel(11, 9), CLEAR);
}

#[test]
fn append_without_background_keeps_what_is_under_value_zero() {
    let mut c = Canvas::new(8, 8);
    c.put_pixel(0, 0, [9, 9, 9, 9]);
    c.put_pixel(1, 0, [9, 9, 9, 9]);
    append_pattern_on_image(&mut c, diagonal(), 0, 0, palette());
    assert_eq!(c.get_pixel(0, 0), [9, 9, 9, 9]);
    assert_eq!(c.get_pixel(1, 0), [10, 20, 30, 255]);
}

#[test]
fn append_with_background_paints_value_zero() {
    let mut c = Canvas::new(8, 8);
    c.put_pixel(0, 0, [9, 9, 9, 9]);
    let pal = ChrPalette { cbg: Some([1, 1, 1]), ..palette() };
    append_pattern_on_image(&mut c, diagonal(), 0, 0, pal);
    assert_eq!(c.get_pixel(0, 0), [1, 1, 1, 255]);
    assert_eq!(c.get_pixel(4, 0), [1, 1, 1, 255]);
}

#[test]
fn render_pattern_is_one_tile() {
    let c = render_pattern(diagonal(), palette());
    assert_eq!((c.width, c.height), (8, 8));
    assert_eq!(c.get_pixel(1, 0), [10, 20, 30, 255]);
    assert_eq!(c.get_pixel(7, 7), [40, 50, 60, 255]);
}

#[test]
fn render_patterns_lays_out_sixteen_per_row() {
    let mut pats = vec![[[0u8; 8]; 8]; 17];
    pats[16] = [[3u8; 8]; 8];
    pats[15] = [[1u8; 8]; 8];
    let c = render_patterns(pats, vec![palette(); 17]);
    assert_eq!((c.width, c.height), (128, 16));
    assert_eq!(c.get_pixel(0, 8), [70, 80, 90, 255]);
    assert_eq!(c.get_pixel(120, 0), [10, 20, 30, 255]);
    assert_eq!(c.get_pixel(8, 8), CLEAR);
}

#[test]
fn render_patterns_of_sixteen_is_one_row() {
    let c = render_patterns(vec![[[1u8; 8]; 8]; 16], vec![palette(); 16]);
    assert_eq!((c.width, c.height), (128, 8));
}

#[test]
fn patterns_png_has_png_signature() {
    let bytes = get_patterns_as_png_bytes(vec![diagonal(); 3], vec![palette(); 3]).unwrap();
    assert_eq!(bytes[..8], PNG_SIGNATURE);
    assert!(bytes.len() > 8);
}

#[test]
fn canvas_png_has_png_signature() {
    let c = render_pattern(diagonal(), palette());
    let bytes = c.to_png_bytes().unwrap();
    assert_eq!(bytes[..8], PNG_SIGNATURE);
    assert_ne!(bytes, c.to_rgba_bytes());
}

#[test]
fn empty_canvas_cannot_be_encoded() {
    assert_eq!(Canvas::new(0, 0).to_png_bytes(), Err(Error::EncodeError));
}

#[test]
fn font_has_sixteen_glyphs() {
    let glyphs = read_hex_font();
    assert_eq!(glyphs.len(), 16);
    for d in 0..16 {
        assert_eq!(glyphs[d], glyph(d));
        assert_ne!(glyphs[d], [[0u8; 8]; 8]);
        for d2 in 0..d {
            assert_ne!(glyphs[d], glyphs[d2]);
        }
    }
}

#[test]
fn graduated_sheet_of_seventeen_tiles() {
    let img = render_patterns_with_graduations(vec![[[1u8; 8]; 8]; 17], vec![palette(); 17]);
    assert_eq!(img.width, 160);
    assert_eq!(img.height, 24);
    // row 1 is labelled with the glyph of digit 1, just left of the grid
    assert_glyph_at(&img, 1, 24, 16);
    // row 0 is labelled 0
    assert_glyph_at(&img, 0, 24, 8);
    // the other label columns of row 1 stay empty
    for x in 0..24 {
        assert_eq!(img.get_pixel(x, 16), CLEAR);
    }
}

#[test]
fn graduated_sheet_headers_and_tiles() {
    let img = render_patterns_with_graduations(vec![[[2u8; 8]; 8]; 17], vec![palette(); 17]);
    for k in 0..16u32 {
        assert_glyph_at(&img, k as usize, (k + 4) * 8, 0);
    }
    // tile 0 at the grid's top-left, tile 16 starts the second row
    assert_eq!(img.get_pixel(32, 8), [40, 50, 60, 255]);
    assert_eq!(img.get_pixel(32, 16), [40, 50, 60, 255]);
    // no tile 17
    assert_eq!(img.get_pixel(40, 16), CLEAR);
}

#[test]
fn graduated_sheet_of_nothing_keeps_its_header() {
    let img = render_patterns_with_graduations(Vec::new(), Vec::new());
    assert_eq!((img.width, img.height), (160, 8));
    assert_glyph_at(&img, 15, 19 * 8, 0);
}

#[test]
fn graduated_sheet_labels_rows_in_hexadecimal() {
    let n = 16 * 27;
    let img = render_patterns_with_graduations(vec![[[0u8; 8]; 8]; n], vec![palette(); n]);
    assert_eq!(img.height, 27 * 8 + 8);
    // row 0x1A: digit A right next to the grid, digit 1 left of it
    assert_glyph_at(&img, 0xA, 24, 27 * 8);
    assert_glyph_at(&img, 1, 16, 27 * 8);
    // row 0x10
    assert_glyph_at(&img, 0, 24, 17 * 8);
    assert_glyph_at(&img, 1, 16, 17 * 8);
    // row 0xF has one digit
    assert_glyph_at(&img, 0xF, 24, 16 * 8);
    for x in 0..24 {
        assert_eq!(img.get_pixel(x, 16 * 8), CLEAR);
    }
}

#[test]
fn graduated_sheet_ignores_background_colours() {
    let mut tile = [[0u8; 8]; 8];
    tile[0][1] = 1;
    let pal = ChrPalette { cbg: Some([5, 6, 7]), ..palette() };
    let img = render_patterns_with_graduations(vec![tile], vec![pal]);
    assert_eq!(img.get_pixel(32, 8), CLEAR);
    assert_eq!(img.get_pixel(39, 15), CLEAR);
    assert_eq!(img.get_pixel(33, 8), [10, 20, 30, 255]);
}

#[test]
fn patterns_png_of_nothing_cannot_be_encoded() {
    assert_eq!(get_patterns_as_png_bytes(Vec::new(), Vec::new()), Err(Error::EncodeError));
}
