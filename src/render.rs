//! Painting tiles onto a canvas, and the grid layouts built from it.
use vstd::arithmetic::div_mod::{lemma_fundamental_div_mod, lemma_multiply_divide_lt};
use vstd::prelude::*;

use crate::canvas::{clear_pixel, Canvas};
use crate::png::png_rgba8;
use crate::Error;
use crate::chr::{pattern_view, pattern_wf, ChrPixelPattern};
use crate::font::{hex_glyphs, read_hex_font};
use crate::pal::{ChrPalette, PaletteView};

verus! {

/// A colour with full alpha.
pub open spec fn opaque(c: Seq<u8>) -> Seq<u8> {
    seq![c[0], c[1], c[2], 255u8]
}

/// The colour that pixel value `v` takes under `pal`: `None` where the pixel is left
/// unpainted (value 0 without a background colour).
pub open spec fn shade(pal: PaletteView, v: u8) -> Option<Seq<u8>> {
    if v == 0 {
        match pal.cbg {
            Some(c) => Some(opaque(c)),
            None => None,
        }
    } else if v == 1 {
        Some(opaque(pal.c0))
    } else if v == 2 {
        Some(opaque(pal.c1))
    } else {
        Some(opaque(pal.c2))
    }
}

/// One tile drawn with one palette, its top-left corner at `(x, y)`.
pub struct Stamp {
    pub pattern: Seq<Seq<u8>>,
    pub x: int,
    pub y: int,
    pub palette: PaletteView,
}

/// The stamp that painting `pat` at `(x, y)` with `pal` draws.
pub open spec fn stamp_of(pat: ChrPixelPattern, x: int, y: int, pal: ChrPalette) -> Stamp {
    Stamp { pattern: pattern_view(pat), x, y, palette: pal@ }
}

/// What a stamp paints at `(px, py)`, if anything.
pub open spec fn stamp_shade(s: Stamp, px: int, py: int) -> Option<Seq<u8>> {
    if s.x <= px < s.x + 8 && s.y <= py < s.y + 8 {
        shade(s.palette, s.pattern[py - s.y][px - s.x])
    } else {
        None
    }
}

/// The pixel at `(px, py)` after `stamps` are drawn in order on a transparent canvas:
/// the last stamp that paints there decides it.
pub open spec fn composed(stamps: Seq<Stamp>, px: int, py: int) -> Seq<u8>
    decreases stamps.len(),
{
    if stamps.len() == 0 {
        clear_pixel()
    } else {
        match stamp_shade(stamps.last(), px, py) {
            Some(c) => c,
            None => composed(stamps.drop_last(), px, py),
        }
    }
}

/// Every pixel of `c` is what drawing `stamps` in order on a transparent canvas leaves.
pub open spec fn shows(c: Canvas, stamps: Seq<Stamp>) -> bool {
    &&& c.wf()
    &&& forall|px: int, py: int|
        0 <= px < c.width && 0 <= py < c.height ==> #[trigger] c.pixel(px, py) == composed(stamps, px, py)
}

/// `after` is `before` with stamp `s` drawn over it.
pub open spec fn drawn_over(before: Canvas, after: Canvas, s: Stamp) -> bool {
    &&& after.wf()
    &&& after.width == before.width
    &&& after.height == before.height
    &&& forall|px: int, py: int|
        0 <= px < before.width && 0 <= py < before.height ==> #[trigger] after.pixel(px, py) == match stamp_shade(s, px, py) {
            Some(c) => c,
            None => before.pixel(px, py),
        }
}

/// A blank canvas shows no stamps.
pub proof fn lemma_shows_empty(c: Canvas)
    requires
        c.wf(),
        forall|x: int, y: int| 0 <= x < c.width && 0 <= y < c.height ==> #[trigger] c.pixel(x, y) == clear_pixel(),
    ensures
        shows(c, Seq::empty()),
{
}

/// Drawing one more stamp over a canvas extends what it shows by that stamp.
pub proof fn lemma_shows_push(before: Canvas, after: Canvas, stamps: Seq<Stamp>, s: Stamp)
    requires
        shows(before, stamps),
        drawn_over(before, after, s),
    ensures
        shows(after, stamps.push(s)),
{
    assert(stamps.push(s).drop_last() =~= stamps);
    assert forall|px: int, py: int| 0 <= px < after.width && 0 <= py < after.height implies
        #[trigger] after.pixel(px, py) == composed(stamps.push(s), px, py) by {
        assert(before.pixel(px, py) == composed(stamps, px, py));
    }
}

/// Paints `pat` with `pal` so that its top-left pixel lands at `(sx, sy)`. Each pixel of
/// the tile overwrites the canvas with its colour; value 0 without a background colour
/// leaves the canvas as it was. Nothing outside the 8×8 window changes.
pub fn append_pattern_on_image(image: &mut Canvas, pat: ChrPixelPattern, sx: u32, sy: u32, pal: ChrPalette)
    requires
        old(image).wf(),
        sx + 8 <= old(image).width,
        sy + 8 <= old(image).height,
        pattern_wf(pattern_view(pat)),
    ensures
        drawn_over(*old(image), *final(image), stamp_of(pat, sx as int, sy as int, pal)),
{
    let ghost s = stamp_of(pat, sx as int, sy as int, pal);
    let ghost before = *image;
    let mut y: u32 = 0;
    while y < 8
        invariant
            0 <= y <= 8,
            sx + 8 <= before.width,
            sy + 8 <= before.height,
            pattern_wf(pattern_view(pat)),
            s == stamp_of(pat, sx as int, sy as int, pal),
            image.wf(),
            image.width == before.width,
            image.height == before.height,
            forall|px: int, py: int|
                0 <= px < before.width && 0 <= py < before.height ==> #[trigger] image.pixel(px, py) == if py < sy + y {
                    match stamp_shade(s, px, py) {
                        Some(c) => c,
                        None => before.pixel(px, py),
                    }
                } else {
                    before.pixel(px, py)
                },
        decreases 8 - y,
    {
        let mut x: u32 = 0;
        while x < 8
            invariant
                0 <= x <= 8,
                0 <= y < 8,
                sx + 8 <= before.width,
                sy + 8 <= before.height,
                pattern_wf(pattern_view(pat)),
                s == stamp_of(pat, sx as int, sy as int, pal),
                image.wf(),
                image.width == before.width,
                image.height == before.height,
                forall|px: int, py: int|
                    0 <= px < before.width && 0 <= py < before.height ==> #[trigger] image.pixel(px, py) == if py < sy + y || (py == sy + y && px < sx + x) {
                        match stamp_shade(s, px, py) {
                            Some(c) => c,
                            None => before.pixel(px, py),
                        }
                    } else {
                        before.pixel(px, py)
                    },
            decreases 8 - x,
        {
            let v = pat[y as usize][x as usize];
            assert(v == pattern_view(pat)[y as int][x as int]);
            let color: Option<[u8; 3]> = if v == 0 {
                pal.cbg
            } else if v == 1 {
                Some(pal.c0)
            } else if v == 2 {
                Some(pal.c1)
            } else {
                Some(pal.c2)
            };
            let ghost cur = *image;
            match color {
                Some(c) => {
                    let p = [c[0], c[1], c[2], 255u8];
                    assert(p@ =~= opaque(c@));
                    image.put_pixel(sx + x, sy + y, p);
                },
                None => {},
            }
            assert(stamp_shade(s, (sx + x) as int, (sy + y) as int) == match color {
                Some(c) => Some(opaque(c@)),
                None => None::<Seq<u8>>,
            });
            x = x + 1;
        }
        y = y + 1;
    }
}

/// Every tile of `pats` is a 2-bit tile.
pub open spec fn all_wf(pats: Seq<ChrPixelPattern>) -> bool {
    forall|i: int| 0 <= i < pats.len() ==> pattern_wf(pattern_view(#[trigger] pats[i]))
}

/// How many rows of 16 tiles `n` tiles fill.
pub open spec fn grid_rows(n: int) -> int {
    (n + 15) / 16
}

/// Tiles laid out 16 per row: tile `i` at column `i % 16`, row `i / 16`, with palette `i`.
pub open spec fn grid_stamps(pats: Seq<ChrPixelPattern>, pals: Seq<ChrPalette>) -> Seq<Stamp> {
    Seq::new(pats.len(), |i: int| stamp_of(pats[i], (i % 16) * 8, (i / 16) * 8, pals[i]))
}

/// Renders one tile on an 8×8 canvas.
pub fn render_pattern(pat: ChrPixelPattern, pal: ChrPalette) -> (r: Canvas)
    requires
        pattern_wf(pattern_view(pat)),
    ensures
        r.width == 8,
        r.height == 8,
        shows(r, seq![stamp_of(pat, 0, 0, pal)]),
{
    let mut img = Canvas::new(8, 8);
    let ghost blank = img;
    proof {
        lemma_shows_empty(img);
    }
    append_pattern_on_image(&mut img, pat, 0, 0, pal);
    proof {
        lemma_shows_push(blank, img, Seq::empty(), stamp_of(pat, 0, 0, pal));
        assert(Seq::<Stamp>::empty().push(stamp_of(pat, 0, 0, pal)) =~= seq![stamp_of(pat, 0, 0, pal)]);
    }
    img
}

/// Tile `i` of a grid lies within its rows.
proof fn lemma_grid_cell(i: int, n: int)
    requires
        0 <= i < n,
    ensures
        0 <= i % 16 < 16,
        0 <= i / 16,
        i / 16 + 1 <= grid_rows(n),
{
}

/// Renders tiles 16 per row, each with its own palette, on a canvas 128 pixels wide and
/// as many tile rows high as the tiles fill.
pub fn render_patterns(pats: Vec<ChrPixelPattern>, pals: Vec<ChrPalette>) -> (r: Canvas)
    requires
        pats@.len() == pals@.len(),
        all_wf(pats@),
        grid_rows(pats@.len() as int) * 8 * 128 <= usize::MAX,
        grid_rows(pats@.len() as int) * 8 <= u32::MAX,
    ensures
        r.width == 128,
        r.height == grid_rows(pats@.len() as int) * 8,
        shows(r, grid_stamps(pats@, pals@)),
{
    let n = pats.len();
    let rows: usize = n / 16 + if n % 16 == 0 { 0 } else { 1 };
    assert(rows == grid_rows(n as int));
    let height = (rows * 8) as u32;
    let mut img = Canvas::new(128, height);
    proof {
        lemma_shows_empty(img);
        assert(grid_stamps(pats@, pals@).take(0) =~= Seq::<Stamp>::empty());
    }
    let mut i: usize = 0;
    while i < n
        invariant
            n == pats@.len(),
            n == pals@.len(),
            all_wf(pats@),
            0 <= i <= n,
            img.width == 128,
            img.height == grid_rows(n as int) * 8,
            grid_rows(n as int) * 8 <= u32::MAX,
            shows(img, grid_stamps(pats@, pals@).take(i as int)),
        decreases n - i,
    {
        proof {
            lemma_grid_cell(i as int, n as int);
        }
        let x = (i % 16) as u32;
        let y = (i / 16) as u32;
        let ghost before = img;
        append_pattern_on_image(&mut img, pats[i], x * 8, y * 8, pals[i]);
        proof {
            let stamps = grid_stamps(pats@, pals@);
            lemma_shows_push(before, img, stamps.take(i as int), stamps[i as int]);
            assert(stamps.take(i as int).push(stamps[i as int]) =~= stamps.take(i + 1));
        }
        i = i + 1;
    }
    assert(grid_stamps(pats@, pals@).take(n as int) =~= grid_stamps(pats@, pals@));
    img
}

/// The raw RGBA bytes, four per pixel in row-major order, of a `w × h` canvas that
/// shows `stamps`.
pub open spec fn raster(stamps: Seq<Stamp>, w: int, h: int) -> Seq<u8> {
    Seq::new((4 * w * h) as nat, |j: int| composed(stamps, (j / 4) % w, (j / 4) / w)[j % 4])
}

/// A canvas that shows `stamps` holds the bytes of their raster.
pub proof fn lemma_shows_raster(c: Canvas, stamps: Seq<Stamp>)
    requires
        shows(c, stamps),
    ensures
        c.rgba() == raster(stamps, c.width as int, c.height as int),
{
    let w = c.width as int;
    let h = c.height as int;
    assert(4 * c.pixels@.len() == 4 * w * h) by (nonlinear_arith)
        requires
            c.pixels@.len() == w * h,
    ;
    assert forall|j: int| 0 <= j < 4 * w * h implies #[trigger] c.rgba()[j] == raster(stamps, w, h)[j] by {
        let i = j / 4;
        assert(0 <= i < w * h);
        assert(w > 0) by (nonlinear_arith)
            requires
                0 <= i < w * h,
                0 <= h,
        ;
        lemma_fundamental_div_mod(i, w);
        lemma_multiply_divide_lt(i, w, h);
        assert(0 <= i % w < w);
        assert(0 <= i / w) by (nonlinear_arith)
            requires
                0 <= i,
                0 < w,
        ;
        assert((i / w) * w + i % w == i) by (nonlinear_arith)
            requires
                i == w * (i / w) + (i % w),
        ;
        assert(c.pixel(i % w, i / w) == composed(stamps, i % w, i / w));
    }
    assert(c.rgba() =~= raster(stamps, w, h));
}

impl Canvas {
    /// Encodes the canvas as a PNG image with 8-bit RGBA pixels; a canvas without pixels
    /// cannot be a PNG image.
    pub fn to_png_bytes(&self) -> (r: Result<Vec<u8>, Error>)
        requires
            self.wf(),
        ensures
            r is Ok <==> self.width > 0 && self.height > 0,
            r matches Ok(b) ==> b@ == png_rgba8(self.width, self.height, self.rgba()),
            r matches Err(e) ==> e == Error::EncodeError,
    {
        let data = self.to_rgba_bytes();
        assert(data@.len() == 4 * self.width * self.height) by (nonlinear_arith)
            requires
                data@.len() == 4 * self.pixels@.len(),
                self.pixels@.len() == self.width * self.height,
        ;
        match crate::png::encode_png_rgba8(self.width, self.height, data.as_slice()) {
            Ok(b) => Ok(b),
            Err(_) => Err(Error::EncodeError),
        }
    }
}

/// Renders tiles 16 per row, as `render_patterns` does, and encodes the result as PNG;
/// without tiles there is no image to encode.
pub fn get_patterns_as_png_bytes(pats: Vec<ChrPixelPattern>, pals: Vec<ChrPalette>) -> (r: Result<Vec<u8>, Error>)
    requires
        pats@.len() == pals@.len(),
        all_wf(pats@),
        grid_rows(pats@.len() as int) * 8 * 128 <= usize::MAX,
        grid_rows(pats@.len() as int) * 8 <= u32::MAX,
    ensures
        r is Ok <==> pats@.len() > 0,
        r matches Ok(b) ==> b@ == png_rgba8(
            128,
            (grid_rows(pats@.len() as int) * 8) as u32,
            raster(grid_stamps(pats@, pals@), 128, grid_rows(pats@.len() as int) * 8),
        ),
        r matches Err(e) ==> e == Error::EncodeError,
{
    let ghost stamps = grid_stamps(pats@, pals@);
    let img = render_patterns(pats, pals);
    proof {
        lemma_shows_raster(img, stamps);
    }
    img.to_png_bytes()
}

/// The palette that sheet labels are drawn with: white for every value, no background.
pub open spec fn label_palette() -> PaletteView {
    PaletteView {
        c0: seq![255u8, 255u8, 255u8],
        c1: seq![255u8, 255u8, 255u8],
        c2: seq![255u8, 255u8, 255u8],
        cbg: None,
    }
}

/// The hexadecimal digits of `n`, least significant first; 0 has the single digit 0.
pub open spec fn hex_digits(n: nat) -> Seq<nat>
    decreases n,
{
    if n < 16 {
        seq![n]
    } else {
        seq![n % 16] + hex_digits(n / 16)
    }
}

/// The column headers of a sheet: glyph `k` of the font above tile column `k`.
pub open spec fn header_stamps(glyphs: Seq<Seq<Seq<u8>>>) -> Seq<Stamp> {
    Seq::new(16, |k: int| Stamp { pattern: glyphs[k], x: (k + 4) * 8, y: 0, palette: label_palette() })
}

/// A palette's colours without its background colour: value 0 stays transparent.
pub open spec fn without_background(p: PaletteView) -> PaletteView {
    PaletteView { c0: p.c0, c1: p.c1, c2: p.c2, cbg: None }
}

/// The tiles of a sheet: tile `i` in column `i % 16` and row `i / 16` of the grid, which
/// starts one tile down and four tiles right, drawn with palette `i` over a transparent
/// background whatever background colour that palette holds.
pub open spec fn sheet_tile_stamps(pats: Seq<ChrPixelPattern>, pals: Seq<ChrPalette>) -> Seq<Stamp> {
    Seq::new(
        pats.len(),
        |i: int| Stamp {
            pattern: pattern_view(pats[i]),
            x: (i % 16 + 4) * 8,
            y: (i / 16 + 1) * 8,
            palette: without_background(pals[i]@),
        },
    )
}

/// The label of grid row `r`: its hexadecimal digits right-aligned against the grid, the
/// least significant one in the column just left of it.
pub open spec fn row_label_stamps(glyphs: Seq<Seq<Seq<u8>>>, r: nat) -> Seq<Stamp> {
    Seq::new(
        hex_digits(r).len(),
        |k: int| Stamp { pattern: glyphs[hex_digits(r)[k] as int], x: (3 - k) * 8, y: ((r + 1) * 8) as int, palette: label_palette() },
    )
}

/// The labels of grid rows `0..rows`, in row order.
pub open spec fn label_stamps(glyphs: Seq<Seq<Seq<u8>>>, rows: nat) -> Seq<Stamp>
    decreases rows,
{
    if rows == 0 {
        Seq::empty()
    } else {
        label_stamps(glyphs, (rows - 1) as nat) + row_label_stamps(glyphs, (rows - 1) as nat)
    }
}

/// Everything a graduated sheet of `pats` draws: the column headers, the tiles, and the
/// label of every grid row.
pub open spec fn sheet_stamps(pats: Seq<ChrPixelPattern>, pals: Seq<ChrPalette>, glyphs: Seq<Seq<Seq<u8>>>) -> Seq<Stamp> {
    header_stamps(glyphs) + sheet_tile_stamps(pats, pals) + label_stamps(glyphs, grid_rows(pats.len() as int) as nat)
}

/// A number below 0x10000 has at most four hexadecimal digits.
proof fn lemma_hex_digits_len(n: nat)
    requires
        n < 0x10000,
    ensures
        1 <= hex_digits(n).len() <= 4,
{
    let a = n / 16;
    let b = a / 16;
    let c = b / 16;
    assert(hex_digits(c).len() == 1);
    assert(hex_digits(b).len() <= 2);
    assert(hex_digits(a).len() <= 3);
}

/// Drawing stamp `b[i]` after `a + b.take(i)` draws `a + b.take(i + 1)`.
proof fn lemma_push_next(a: Seq<Stamp>, b: Seq<Stamp>, i: int)
    requires
        0 <= i < b.len(),
    ensures
        (a + b.take(i)).push(b[i]) == a + b.take(i + 1),
{
    assert((a + b.take(i)).push(b[i]) =~= a + b.take(i + 1));
}

/// Renders tiles in a grid of 16 columns framed by hexadecimal graduations: a header row
/// of digit glyphs above the columns, and each row's index, right-aligned, in the four
/// tile columns left of it. Tiles are drawn without background colour: pixels of value
/// 0 stay transparent. The canvas is 160 pixels wide and one tile row taller than
/// the grid.
pub fn render_patterns_with_graduations(pats: Vec<ChrPixelPattern>, pals: Vec<ChrPalette>) -> (r: Canvas)
    requires
        pats@.len() == pals@.len(),
        all_wf(pats@),
        pats@.len() <= 0x100000,
    ensures
        r.width == 160,
        r.height == grid_rows(pats@.len() as int) * 8 + 8,
        shows(r, sheet_stamps(pats@, pals@, hex_glyphs())),
{
    let glyphs = read_hex_font();
    let label = ChrPalette { c0: [255, 255, 255], c1: [255, 255, 255], c2: [255, 255, 255], cbg: None };
    assert(label@.c0 =~= label_palette().c0);
    assert(label@.c1 =~= label_palette().c1);
    assert(label@.c2 =~= label_palette().c2);
    assert(label@ == label_palette());
    let n = pats.len();
    let rows: usize = n / 16 + if n % 16 == 0 { 0 } else { 1 };
    assert(rows == grid_rows(n as int));
    let height = (rows * 8 + 8) as u32;
    let mut img = Canvas::new(160, height);
    let ghost header = header_stamps(hex_glyphs());
    let ghost tiles = sheet_tile_stamps(pats@, pals@);
    proof {
        lemma_shows_empty(img);
        assert(header.take(0) =~= Seq::<Stamp>::empty());
    }
    let mut k: usize = 0;
    while k < 16
        invariant
            0 <= k <= 16,
            glyphs@.len() == 16,
            forall|d: int| 0 <= d < 16 ==> pattern_view(#[trigger] glyphs@[d]) == hex_glyphs()[d],
            forall|d: int| 0 <= d < 16 ==> pattern_wf(pattern_view(#[trigger] glyphs@[d])),
            label@ == label_palette(),
            header == header_stamps(hex_glyphs()),
            img.width == 160,
            img.height == height,
            height == rows * 8 + 8,
            shows(img, header.take(k as int)),
        decreases 16 - k,
    {
        let ghost before = img;
        append_pattern_on_image(&mut img, glyphs[k], (k as u32 + 4) * 8, 0, label);
        proof {
            lemma_shows_push(before, img, header.take(k as int), header[k as int]);
            lemma_push_next(Seq::empty(), header, k as int);
            assert(Seq::<Stamp>::empty() + header.take(k as int) =~= header.take(k as int));
            assert(Seq::<Stamp>::empty() + header.take(k + 1) =~= header.take(k + 1));
        }
        k = k + 1;
    }
    proof {
        assert(header.take(16) =~= header);
        assert(header + tiles.take(0) =~= header);
    }
    let mut i: usize = 0;
    while i < n
        invariant
            n == pats@.len(),
            n == pals@.len(),
            n <= 0x100000,
            all_wf(pats@),
            0 <= i <= n,
            rows == grid_rows(n as int),
            img.width == 160,
            img.height == height,
            height == rows * 8 + 8,
            tiles == sheet_tile_stamps(pats@, pals@),
            shows(img, header + tiles.take(i as int)),
        decreases n - i,
    {
        proof {
            lemma_grid_cell(i as int, n as int);
        }
        let x = (i % 16) as u32;
        let y = (i / 16) as u32;
        let p = pals[i];
        let tile_palette = ChrPalette { c0: p.c0, c1: p.c1, c2: p.c2, cbg: None };
        assert(tile_palette@ == without_background(pals@[i as int]@));
        let ghost before = img;
        append_pattern_on_image(&mut img, pats[i], (x + 4) * 8, (y + 1) * 8, tile_palette);
        proof {
            lemma_shows_push(before, img, header + tiles.take(i as int), tiles[i as int]);
            lemma_push_next(header, tiles, i as int);
        }
        i = i + 1;
    }
    proof {
        assert(tiles.take(n as int) =~= tiles);
        assert(label_stamps(hex_glyphs(), 0) =~= Seq::<Stamp>::empty());
        assert(header + tiles + label_stamps(hex_glyphs(), 0) =~= header + tiles);
    }
    let mut row: u32 = 0;
    while (row as usize) < rows
        invariant
            0 <= row <= rows,
            rows == grid_rows(n as int),
            rows <= 0x10000,
            glyphs@.len() == 16,
            forall|d: int| 0 <= d < 16 ==> pattern_view(#[trigger] glyphs@[d]) == hex_glyphs()[d],
            forall|d: int| 0 <= d < 16 ==> pattern_wf(pattern_view(#[trigger] glyphs@[d])),
            label@ == label_palette(),
            img.width == 160,
            img.height == height,
            height == rows * 8 + 8,
            shows(img, header + tiles + label_stamps(hex_glyphs(), row as nat)),
        decreases rows - row,
    {
        let ghost done = header + tiles + label_stamps(hex_glyphs(), row as nat);
        let ghost digits = hex_digits(row as nat);
        let ghost here = row_label_stamps(hex_glyphs(), row as nat);
        proof {
            lemma_hex_digits_len(row as nat);
            assert(done + here.take(0) =~= done);
        }
        let mut v: u32 = row;
        let mut d: usize = 0;
        let mut more = true;
        while more
            invariant
                row < rows,
                rows <= 0x10000,
                digits == hex_digits(row as nat),
                here == row_label_stamps(hex_glyphs(), row as nat),
                1 <= digits.len() <= 4,
                0 <= d <= digits.len(),
                more == (d < digits.len()),
                more ==> hex_digits(v as nat) == digits.subrange(d as int, digits.len() as int),
                glyphs@.len() == 16,
                forall|g: int| 0 <= g < 16 ==> pattern_view(#[trigger] glyphs@[g]) == hex_glyphs()[g],
                forall|g: int| 0 <= g < 16 ==> pattern_wf(pattern_view(#[trigger] glyphs@[g])),
                label@ == label_palette(),
                img.width == 160,
                img.height == height,
                height == rows * 8 + 8,
                shows(img, done + here.take(d as int)),
            decreases digits.len() - d,
        {
            let digit = v % 16;
            proof {
                assert(hex_digits(v as nat)[0] == digit);
                assert(digits[d as int] == digit);
            }
            let ghost before = img;
            append_pattern_on_image(&mut img, glyphs[digit as usize], (3 - d as u32) * 8, (row + 1) * 8, label);
            proof {
                lemma_shows_push(before, img, done + here.take(d as int), here[d as int]);
                lemma_push_next(done, here, d as int);
                if v >= 16 {
                    assert(hex_digits(v as nat) == seq![(v % 16) as nat] + hex_digits((v / 16) as nat));
                    let hv = hex_digits(v as nat);
                    assert(hex_digits((v / 16) as nat) =~= hv.subrange(1, hv.len() as int));
                    assert(hex_digits((v / 16) as nat) =~= digits.subrange(d + 1, digits.len() as int));
                } else {
                    assert(hex_digits(v as nat).len() == 1);
                }
            }
            v = v / 16;
            d = d + 1;
            more = v != 0;
        }
        proof {
            assert(here.take(d as int) =~= here);
            assert(label_stamps(hex_glyphs(), (row + 1) as nat) == label_stamps(hex_glyphs(), row as nat) + here);
            assert(done + here =~= header + tiles + label_stamps(hex_glyphs(), (row + 1) as nat));
        }
        row = row + 1;
    }
    img
}

} // verus!
