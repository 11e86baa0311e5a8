//! Atlases: tiles of a binary placed on one canvas, each with its own palette and transforms.
use vstd::prelude::*;
use vstd::slice::{slice_subrange, slice_to_vec};

use crate::canvas::Canvas;
use crate::chr::{
    decoded_all, flip_x, flip_y, flipped_x, flipped_y, lemma_decoded_wf, lemma_transforms_wf, pattern_view,
    pattern_wf, read_bytes, transpose, transposed, ChrPixelPattern,
};
use crate::pal::{colors_of, read_palette_from_bytes, ChrPalette, PaletteView};
use crate::png::png_rgba8;
use crate::render::{append_pattern_on_image, lemma_shows_empty, lemma_shows_push, lemma_shows_raster, raster, shows, Stamp};
use crate::Error;

verus! {

/// Draws tiles of a CHR binary onto one canvas: each entry of `data` places one tile.
#[derive(Clone, Debug)]
pub struct Atlas {
    /// path of the binary the tiles come from
    pub binary: String,
    /// path of the palette file: RGB triplets
    pub palette: String,
    /// byte offset of the first tile in the binary
    pub start: u64,
    /// how many bytes of tiles to read
    pub length: usize,
    /// the tiles to draw, in drawing order
    pub data: Vec<AtlasData>,
}

/// One 8×8 tile placed on an atlas.
#[derive(Clone, Copy, Debug, PartialEq, Eq)]
pub struct AtlasData {
    /// index of the tile among those decoded from the binary
    pub chr_index: usize,
    /// palette index of the colour for pixel value 1
    pub c0: usize,
    /// palette index of the colour for pixel value 2
    pub c1: usize,
    /// palette index of the colour for pixel value 3
    pub c2: usize,
    /// palette index of the colour for pixel value 0; transparent when absent
    pub cbg: Option<usize>,
    /// x position of the tile's left edge
    pub x: u32,
    /// y position of the tile's top edge
    pub y: u32,
    /// transpose
    pub transpose: bool,
    /// flip x
    pub flip_x: bool,
    /// flip y
    pub flip_y: bool,
}

/// The tile an entry draws: transposed first, then flipped horizontally, then vertically,
/// as its flags ask.
pub open spec fn oriented(p: Seq<Seq<u8>>, e: AtlasData) -> Seq<Seq<u8>> {
    let t = if e.transpose { transposed(p) } else { p };
    let h = if e.flip_x { flipped_x(t) } else { t };
    if e.flip_y { flipped_y(h) } else { h }
}

/// The colours an entry draws with, looked up in the palette table `colors`.
pub open spec fn entry_palette(e: AtlasData, colors: Seq<Seq<u8>>) -> PaletteView {
    PaletteView {
        c0: colors[e.c0 as int],
        c1: colors[e.c1 as int],
        c2: colors[e.c2 as int],
        cbg: match e.cbg {
            Some(i) => Some(colors[i as int]),
            None => None,
        },
    }
}

/// What an entry draws, given the decoded tiles and the palette table.
pub open spec fn entry_stamp(e: AtlasData, tiles: Seq<Seq<Seq<u8>>>, colors: Seq<Seq<u8>>) -> Stamp {
    Stamp { pattern: oriented(tiles[e.chr_index as int], e), x: e.x as int, y: e.y as int, palette: entry_palette(e, colors) }
}

/// What the entries draw, in order.
pub open spec fn atlas_stamps(data: Seq<AtlasData>, tiles: Seq<Seq<Seq<u8>>>, colors: Seq<Seq<u8>>) -> Seq<Stamp> {
    Seq::new(data.len(), |i: int| entry_stamp(data[i], tiles, colors))
}

/// The first index an entry holds that is out of range, checked in the order tile,
/// `c0`, `c1`, `c2`, background; `None` when all are in range.
pub open spec fn entry_fault(e: AtlasData, n_tiles: int, n_colors: int) -> Option<usize> {
    if e.chr_index >= n_tiles {
        Some(e.chr_index)
    } else if e.c0 >= n_colors {
        Some(e.c0)
    } else if e.c1 >= n_colors {
        Some(e.c1)
    } else if e.c2 >= n_colors {
        Some(e.c2)
    } else {
        match e.cbg {
            Some(i) => if i >= n_colors { Some(i) } else { None },
            None => None,
        }
    }
}

/// The out-of-range index of the first entry that holds one.
pub open spec fn first_fault(data: Seq<AtlasData>, n_tiles: int, n_colors: int) -> Option<usize>
    decreases data.len(),
{
    if data.len() == 0 {
        None
    } else {
        match first_fault(data.drop_last(), n_tiles, n_colors) {
            Some(i) => Some(i),
            None => entry_fault(data.last(), n_tiles, n_colors),
        }
    }
}

/// The width that holds every entry: the largest `x + 8`, or 0 without entries.
pub open spec fn canvas_width(data: Seq<AtlasData>) -> int
    decreases data.len(),
{
    if data.len() == 0 {
        0
    } else {
        let w = canvas_width(data.drop_last());
        if w >= data.last().x + 8 { w } else { data.last().x + 8 }
    }
}

/// The height that holds every entry: the largest `y + 8`, or 0 without entries.
pub open spec fn canvas_height(data: Seq<AtlasData>) -> int
    decreases data.len(),
{
    if data.len() == 0 {
        0
    } else {
        let h = canvas_height(data.drop_last());
        if h >= data.last().y + 8 { h } else { data.last().y + 8 }
    }
}

/// Every entry lies within the canvas its entries size.
proof fn lemma_entries_inside(data: Seq<AtlasData>)
    ensures
        canvas_width(data) >= 0,
        canvas_height(data) >= 0,
        forall|i: int| 0 <= i < data.len() ==> #[trigger] data[i].x + 8 <= canvas_width(data) && data[i].y + 8 <= canvas_height(data),
    decreases data.len(),
{
    if data.len() > 0 {
        lemma_entries_inside(data.drop_last());
        assert forall|i: int| 0 <= i < data.len() implies #[trigger] data[i].x + 8 <= canvas_width(data) && data[i].y + 8 <= canvas_height(data) by {
            if i < data.len() - 1 {
                assert(data[i] == data.drop_last()[i]);
            }
        }
    }
}

/// An out-of-range index in a prefix of the entries is the first one of all of them.
proof fn lemma_first_fault_prefix(data: Seq<AtlasData>, k: int, n_tiles: int, n_colors: int)
    requires
        0 <= k <= data.len(),
        first_fault(data.take(k), n_tiles, n_colors) is Some,
    ensures
        first_fault(data, n_tiles, n_colors) == first_fault(data.take(k), n_tiles, n_colors),
    decreases data.len() - k,
{
    if k < data.len() {
        assert(data.take(k + 1).drop_last() =~= data.take(k));
        lemma_first_fault_prefix(data, k + 1, n_tiles, n_colors);
    } else {
        assert(data.take(k) =~= data);
    }
}

/// An atlas without entries needs a zero-sized canvas, which always fits, and holds no
/// out-of-range index: from any sources of whole chunks it renders an empty canvas.
pub proof fn lemma_empty_atlas(a: Atlas, n_tiles: int, n_colors: int)
    requires
        a.data@.len() == 0,
    ensures
        canvas_width(a.data@) == 0,
        canvas_height(a.data@) == 0,
        a.canvas_fits(),
        first_fault(a.data@, n_tiles, n_colors) is None,
{
}

/// The first entry with an out-of-range index decides the error: its tile index if that
/// is out of range, else the first of its palette indices that is.
pub proof fn lemma_first_bad_entry(data: Seq<AtlasData>, k: int, n_tiles: int, n_colors: int)
    requires
        0 <= k < data.len(),
        forall|j: int| 0 <= j < k ==> entry_fault(#[trigger] data[j], n_tiles, n_colors) is None,
        entry_fault(data[k], n_tiles, n_colors) is Some,
    ensures
        first_fault(data, n_tiles, n_colors) == entry_fault(data[k], n_tiles, n_colors),
        data[k].chr_index >= n_tiles ==> first_fault(data, n_tiles, n_colors) == Some(data[k].chr_index),
{
    lemma_no_fault_before(data, k, n_tiles, n_colors);
    assert(data.take(k + 1).drop_last() =~= data.take(k));
    lemma_first_fault_prefix(data, k + 1, n_tiles, n_colors);
}

proof fn lemma_no_fault_before(data: Seq<AtlasData>, k: int, n_tiles: int, n_colors: int)
    requires
        0 <= k <= data.len(),
        forall|j: int| 0 <= j < k ==> entry_fault(#[trigger] data[j], n_tiles, n_colors) is None,
    ensures
        first_fault(data.take(k), n_tiles, n_colors) is None,
    decreases k,
{
    if k > 0 {
        assert(data.take(k).drop_last() =~= data.take(k - 1));
        lemma_no_fault_before(data, k - 1, n_tiles, n_colors);
    }
}

impl Atlas {
    /// The tile source: `length` bytes of `binary` from offset `start`.
    pub open spec fn source_in(&self, binary: Seq<u8>) -> Seq<u8> {
        binary.subrange(self.start as int, self.start + self.length)
    }

    /// The canvas that holds every entry has sides that fit `u32` and an area that fits `usize`.
    pub open spec fn canvas_fits(&self) -> bool {
        &&& canvas_width(self.data@) <= u32::MAX
        &&& canvas_height(self.data@) <= u32::MAX
        &&& canvas_width(self.data@) * canvas_height(self.data@) <= usize::MAX
    }

    /// The size of the smallest canvas that holds every entry, `None` when it does not fit.
    pub fn canvas_size(&self) -> (r: Option<(u32, u32)>)
        ensures
            r == if self.canvas_fits() {
                Some((canvas_width(self.data@) as u32, canvas_height(self.data@) as u32))
            } else {
                None::<(u32, u32)>
            },
    {
        let mut w: u64 = 0;
        let mut h: u64 = 0;
        let mut i: usize = 0;
        while i < self.data.len()
            invariant
                0 <= i <= self.data@.len(),
                w == canvas_width(self.data@.take(i as int)),
                h == canvas_height(self.data@.take(i as int)),
                w <= u32::MAX + 8,
                h <= u32::MAX + 8,
            decreases self.data@.len() - i,
        {
            let d = self.data[i];
            assert(self.data@.take(i + 1).drop_last() =~= self.data@.take(i as int));
            if d.x as u64 + 8 > w {
                w = d.x as u64 + 8;
            }
            if d.y as u64 + 8 > h {
                h = d.y as u64 + 8;
            }
            i = i + 1;
        }
        assert(self.data@.take(i as int) =~= self.data@);
        if w > u32::MAX as u64 || h > u32::MAX as u64 {
            return None;
        }
        match (w as usize).checked_mul(h as usize) {
            Some(_) => Some((w as u32, h as u32)),
            None => None,
        }
    }

    /// Renders the atlas from the contents of its binary and of its palette file.
    ///
    /// The tiles are the `length` bytes of `binary` from `start`, decoded 16 bytes per
    /// tile; the palette table is `palette` read 3 bytes per colour. The canvas is the
    /// smallest that holds every entry, transparent where nothing is drawn, and the
    /// entries are drawn in order, each over those before it. Fails, before anything is
    /// drawn, when the range lies beyond the binary, when either byte count leaves a
    /// partial chunk, or at the first entry that names a tile or colour that does not exist.
    pub fn render_image(&self, binary: &[u8], palette: &[u8]) -> (r: Result<Canvas, Error>)
        requires
            self.canvas_fits(),
        ensures
            self.start + self.length > binary@.len() ==> r == Err::<Canvas, Error>(Error::SourceReadError),
            self.start + self.length <= binary@.len() && self.length % 16 != 0 ==> r == Err::<Canvas, Error>(Error::MalformedChunk),
            self.start + self.length <= binary@.len() && self.length % 16 == 0 && palette@.len() % 3 != 0
                ==> r == Err::<Canvas, Error>(Error::MalformedChunk),
            self.start + self.length <= binary@.len() && self.length % 16 == 0 && palette@.len() % 3 == 0 ==> match first_fault(
                self.data@,
                (self.length / 16) as int,
                (palette@.len() / 3) as int,
            ) {
                Some(i) => r == Err::<Canvas, Error>(Error::IndexOutOfRange(i)),
                None => r matches Ok(c) && c.width == canvas_width(self.data@) && c.height == canvas_height(self.data@)
                    && shows(c, atlas_stamps(self.data@, decoded_all(self.source_in(binary@)), colors_of(palette@))),
            },
    {
        let total = binary.len();
        if self.start > total as u64 {
            return Err(Error::SourceReadError);
        }
        let s = self.start as usize;
        if total - s < self.length {
            return Err(Error::SourceReadError);
        }
        let source = slice_to_vec(slice_subrange(binary, s, s + self.length));
        assert(source@ == self.source_in(binary@));
        let chrs = match read_bytes(source) {
            Ok(c) => c,
            Err(e) => return Err(e),
        };
        let pal = match read_palette_from_bytes(slice_to_vec(palette)) {
            Ok(p) => p,
            Err(e) => return Err(e),
        };
        let ghost tiles = decoded_all(self.source_in(binary@));
        let ghost colors = colors_of(palette@);
        let ghost stamps = atlas_stamps(self.data@, tiles, colors);
        let (width, height) = match self.canvas_size() {
            Some(size) => size,
            // cannot happen: the canvas fits by the precondition
            None => return Err(Error::SourceReadError),
        };
        proof {
            lemma_entries_inside(self.data@);
        }
        let mut img = Canvas::new(width, height);
        proof {
            lemma_shows_empty(img);
            assert(stamps.take(0) =~= Seq::<Stamp>::empty());
        }
        let mut i: usize = 0;
        while i < self.data.len()
            invariant
                0 <= i <= self.data@.len(),
                chrs@.len() == tiles.len(),
                tiles.len() == self.length / 16,
                forall|k: int| 0 <= k < chrs@.len() ==> pattern_view(#[trigger] chrs@[k]) == tiles[k],
                tiles == decoded_all(self.source_in(binary@)),
                self.source_in(binary@).len() == self.length,
                pal@.len() == colors.len(),
                colors.len() == palette@.len() / 3,
                forall|k: int| 0 <= k < pal@.len() ==> (#[trigger] pal@[k])@ == colors[k],
                stamps == atlas_stamps(self.data@, tiles, colors),
                img.width == canvas_width(self.data@),
                img.height == canvas_height(self.data@),
                forall|k: int| 0 <= k < self.data@.len() ==> #[trigger] self.data@[k].x + 8 <= canvas_width(self.data@)
                    && self.data@[k].y + 8 <= canvas_height(self.data@),
                first_fault(self.data@.take(i as int), tiles.len() as int, colors.len() as int) is None,
                self.start + self.length <= binary@.len(),
                self.length % 16 == 0,
                palette@.len() % 3 == 0,
                shows(img, stamps.take(i as int)),
            decreases self.data@.len() - i,
        {
            let d = self.data[i];
            proof {
                assert(self.data@.take(i + 1).drop_last() =~= self.data@.take(i as int));
                if entry_fault(d, tiles.len() as int, colors.len() as int) is Some {
                    lemma_first_fault_prefix(self.data@, i + 1, tiles.len() as int, colors.len() as int);
                }
            }
            if d.chr_index >= chrs.len() {
                return Err(Error::IndexOutOfRange(d.chr_index));
            }
            if d.c0 >= pal.len() {
                return Err(Error::IndexOutOfRange(d.c0));
            }
            if d.c1 >= pal.len() {
                return Err(Error::IndexOutOfRange(d.c1));
            }
            if d.c2 >= pal.len() {
                return Err(Error::IndexOutOfRange(d.c2));
            }
            let cbg = match d.cbg {
                Some(b) => {
                    if b >= pal.len() {
                        return Err(Error::IndexOutOfRange(b));
                    }
                    Some(pal[b])
                },
                None => None,
            };
            let mut chr = chrs[d.chr_index];
            proof {
                let k = d.chr_index as int;
                lemma_decoded_wf(self.source_in(binary@).subrange(16 * k, 16 * k + 16));
                lemma_transforms_wf(pattern_view(chr));
            }
            if d.transpose {
                transpose(&mut chr);
            }
            proof {
                lemma_transforms_wf(pattern_view(chr));
            }
            if d.flip_x {
                flip_x(&mut chr);
            }
            proof {
                lemma_transforms_wf(pattern_view(chr));
            }
            if d.flip_y {
                flip_y(&mut chr);
            }
            let colors_of_entry = ChrPalette { c0: pal[d.c0], c1: pal[d.c1], c2: pal[d.c2], cbg };
            let ghost before = img;
            append_pattern_on_image(&mut img, chr, d.x, d.y, colors_of_entry);
            proof {
                assert(colors_of_entry@ == entry_palette(d, colors));
                assert(pattern_view(chr) == oriented(tiles[d.chr_index as int], d));
                lemma_shows_push(before, img, stamps.take(i as int), stamps[i as int]);
                assert(stamps.take(i as int).push(stamps[i as int]) =~= stamps.take(i + 1));
            }
            i = i + 1;
        }
        assert(self.data@.take(i as int) =~= self.data@);
        assert(stamps.take(i as int) =~= stamps);
        Ok(img)
    }

    /// Renders the atlas, as `render_image` does, and encodes the canvas as PNG. An atlas
    /// without entries renders a canvas without pixels, which is no PNG image: it fails
    /// with `EncodeError`.
    pub fn get_png_bytes(&self, binary: &[u8], palette: &[u8]) -> (r: Result<Vec<u8>, Error>)
        requires
            self.canvas_fits(),
        ensures
            self.start + self.length > binary@.len() ==> r == Err::<Vec<u8>, Error>(Error::SourceReadError),
            self.start + self.length <= binary@.len() && self.length % 16 != 0 ==> r == Err::<Vec<u8>, Error>(Error::MalformedChunk),
            self.start + self.length <= binary@.len() && self.length % 16 == 0 && palette@.len() % 3 != 0
                ==> r == Err::<Vec<u8>, Error>(Error::MalformedChunk),
            self.start + self.length <= binary@.len() && self.length % 16 == 0 && palette@.len() % 3 == 0 ==> match first_fault(
                self.data@,
                (self.length / 16) as int,
                (palette@.len() / 3) as int,
            ) {
                Some(i) => r == Err::<Vec<u8>, Error>(Error::IndexOutOfRange(i)),
                None => (r is Ok <==> self.data@.len() > 0) && match r {
                    Ok(b) => b@ == png_rgba8(
                        canvas_width(self.data@) as u32,
                        canvas_height(self.data@) as u32,
                        raster(
                            atlas_stamps(self.data@, decoded_all(self.source_in(binary@)), colors_of(palette@)),
                            canvas_width(self.data@),
                            canvas_height(self.data@),
                        ),
                    ),
                    Err(e) => e == Error::EncodeError,
                },
            },
    {
        let img = match self.render_image(binary, palette) {
            Ok(img) => img,
            Err(e) => return Err(e),
        };
        proof {
            lemma_entries_inside(self.data@);
            if self.data@.len() > 0 {
                assert(self.data@[0].x + 8 <= canvas_width(self.data@));
                assert(self.data@[0].y + 8 <= canvas_height(self.data@));
            } else {
                assert(canvas_width(self.data@) == 0);
            }
            lemma_shows_raster(img, atlas_stamps(self.data@, decoded_all(self.source_in(binary@)), colors_of(palette@)));
        }
        img.to_png_bytes()
    }
}

} // verus!
