use chr_reatlas::atlas::{Atlas, AtlasData};
use chr_reatlas::Error;

const PNG_SIGNATURE: [u8; 8] = [0x89, b'P', b'N', b'G', 0x0D, 0x0A, 0x1A, 0x0A];
const CLEAR: [u8; 4] = [0, 0, 0, 0];

fn entry(chr_index: usize, x: u32, y: u32) -> AtlasData {
    AtlasData {
        chr_index,
        c0: 0,
        c1: 1,
        c2: 2,
        cbg: None,
        x,
        y,
        transpose: false,
        flip_x: false,
        flip_y: false,
    }
}

fn atlas(start: u64, length: usize, data: Vec<AtlasData>) -> Atlas {
    Atlas { binary: "tiles.chr".to_string(), palette: "colors.pal".to_string(), start, length, data }
}

/// Two tiles after a 4-byte prefix: tile 0 has pixel (0, 0) = 1, (7, 0) = 2, (0, 7) = 3;
/// tile 1 is solid 3.
fn binary() -> Vec<u8> {
    let mut b = vec![0xEEu8; 4];
    let mut t0 = [0u8; 16];
    t0[0] = 0x80;
    t0[8] = 0x01;
    t0[7] = 0x80;
    t0[15] = 0x80;
    b.extend_from_slice(&t0);
    b.extend_from_slice(&[0xFF; 16]);
    b.extend_from_slice(&[0x77; 5]);
    b
}

fn palette() -> Vec<u8> {
    vec![10, 11, 12, 20, 21, 22, 30, 31, 32, 40, 41, 42]
}

#[test]
fn empty_atlas_renders_empty_canvas() {
    let img = atlas(4, 32, Vec::new()).render_image(&binary(), &palette()).unwrap();
    assert_eq!((img.width, img.height), (0, 0));
    assert!(img.pixels.is_empty());
}

#[test]
fn single_entry_canvas_is_tight() {
    let img = atlas(4, 32, vec![entry(0, 10, 20)]).render_image(&binary(), &palette()).unwrap();
    assert_eq!((img.width, img.height), (18, 28));
    // tile 0's top-left pixel is value 1, drawn with colour c0
    assert_eq!(img.get_pixel(10, 20), [10, 11, 12, 255]);
    assert_eq!(img.get_pixel(17, 20), [20, 21, 22, 255]);
    assert_eq!(img.get_pixel(10, 27), [30, 31, 32, 255]);
    assert_eq!(img.get_pixel(11, 20), CLEAR);
    assert_eq!(img.get_pixel(0, 0), CLEAR);
}

#[test]
fn canvas_spans_all_entries() {
    let a = atlas(4, 32, vec![entry(1, 3, 40), entry(0, 30, 2)]);
    assert_eq!(a.canvas_size(), Some((38, 48)));
    let img = a.render_image(&binary(), &palette()).unwrap();
    assert_eq!((img.width, img.height), (38, 48));
    assert_eq!(img.get_pixel(3, 40), [30, 31, 32, 255]);
    assert_eq!(img.get_pixel(30, 2), [10, 11, 12, 255]);
}

#[test]
fn later_entries_draw_over_earlier_ones() {
    let mut under = entry(1, 0, 0);
    under.c2 = 3;
    let img = atlas(4, 32, vec![under, entry(0, 0, 0)]).render_image(&binary(), &palette()).unwrap();
    assert_eq!(img.get_pixel(0, 0), [10, 11, 12, 255]);
    // value 0 of the upper tile leaves the lower one visible
    assert_eq!(img.get_pixel(1, 0), [40, 41, 42, 255]);
}

#[test]
fn background_colour_fills_value_zero() {
    let mut e = entry(0, 0, 0);
    e.cbg = Some(3);
    let img = atlas(4, 32, vec![e]).render_image(&binary(), &palette()).unwrap();
    assert_eq!(img.get_pixel(1, 0), [40, 41, 42, 255]);
    assert_eq!(img.get_pixel(0, 0), [10, 11, 12, 255]);
}

#[test]
fn transforms_apply_transpose_then_flips() {
    let mut e = entry(0, 0, 0);
    e.transpose = true;
    let img = atlas(4, 32, vec![e]).render_image(&binary(), &palette()).unwrap();
    // (7, 0) = 2 moves to (0, 7); (0, 7) = 3 moves to (7, 0)
    assert_eq!(img.get_pixel(0, 7), [20, 21, 22, 255]);
    assert_eq!(img.get_pixel(7, 0), [30, 31, 32, 255]);

    e.flip_x = true;
    let img = atlas(4, 32, vec![e]).render_image(&binary(), &palette()).unwrap();
    // transposed, then mirrored: 3 lands at (0, 0), 1 at (7, 0), 2 at (7, 7)
    assert_eq!(img.get_pixel(0, 0), [30, 31, 32, 255]);
    assert_eq!(img.get_pixel(7, 0), [10, 11, 12, 255]);
    assert_eq!(img.get_pixel(7, 7), [20, 21, 22, 255]);

    e.flip_y = true;
    let img = atlas(4, 32, vec![e]).render_image(&binary(), &palette()).unwrap();
    assert_eq!(img.get_pixel(0, 7), [30, 31, 32, 255]);
    assert_eq!(img.get_pixel(7, 7), [10, 11, 12, 255]);
    assert_eq!(img.get_pixel(7, 0), [20, 21, 22, 255]);
}

#[test]
fn tile_index_out_of_range_fails() {
    let r = atlas(4, 32, vec![entry(0, 0, 0), entry(2, 8, 0)]).render_image(&binary(), &palette());
    assert_eq!(r.err(), Some(Error::IndexOutOfRange(2)));
}

#[test]
fn palette_index_out_of_range_fails() {
    let mut e = entry(0, 0, 0);
    e.c1 = 4;
    let r = atlas(4, 32, vec![e]).render_image(&binary(), &palette());
    assert_eq!(r.err(), Some(Error::IndexOutOfRange(4)));
}

#[test]
fn background_index_out_of_range_fails() {
    let mut e = entry(1, 0, 0);
    e.cbg = Some(7);
    let r = atlas(4, 32, vec![e]).render_image(&binary(), &palette());
    assert_eq!(r.err(), Some(Error::IndexOutOfRange(7)));
}

#[test]
fn tile_index_is_checked_before_palette_indices() {
    let mut e = entry(5, 0, 0);
    e.c0 = 9;
    let r = atlas(4, 32, vec![e]).render_image(&binary(), &palette());
    assert_eq!(r.err(), Some(Error::IndexOutOfRange(5)));
}

#[test]
fn source_range_past_the_binary_fails() {
    let r = atlas(30, 16, vec![entry(0, 0, 0)]).render_image(&binary(), &palette());
    assert_eq!(r.err(), Some(Error::SourceReadError));
    let r = atlas(1000, 0, Vec::new()).render_image(&binary(), &palette());
    assert_eq!(r.err(), Some(Error::SourceReadError));
}

#[test]
fn partial_tile_chunk_fails() {
    let r = atlas(4, 20, vec![entry(0, 0, 0)]).render_image(&binary(), &palette());
    assert_eq!(r.err(), Some(Error::MalformedChunk));
}

#[test]
fn partial_palette_triplet_fails() {
    let r = atlas(4, 32, vec![entry(0, 0, 0)]).render_image(&binary(), &[1, 2, 3, 4]);
    assert_eq!(r.err(), Some(Error::MalformedChunk));
}

#[test]
fn tiles_start_at_the_offset() {
    let img = atlas(20, 16, vec![entry(0, 0, 0)]).render_image(&binary(), &palette()).unwrap();
    assert_eq!(img.get_pixel(4, 4), [30, 31, 32, 255]);
}

#[test]
fn atlas_png_has_png_signature() {
    let bytes = atlas(4, 32, vec![entry(0, 2, 2)]).get_png_bytes(&binary(), &palette()).unwrap();
    assert_eq!(bytes[..8], PNG_SIGNATURE);
}

#[test]
fn empty_atlas_png_cannot_be_encoded() {
    let r = atlas(4, 32, Vec::new()).get_png_bytes(&binary(), &palette());
    assert_eq!(r, Err(Error::EncodeError));
}

#[test]
fn oversized_canvas_is_reported() {
    let a = atlas(4, 32, vec![entry(0, u32::MAX - 4, 0)]);
    assert_eq!(a.canvas_size(), None);
}
