//! An RGBA raster held as one 4-byte pixel per position, rows top to bottom.
use vstd::prelude::*;

verus! {

/// An RGBA image of `width × height` pixels; the pixel at `(x, y)` is `pixels[y * width + x]`.
pub struct Canvas {
    pub width: u32,
    pub height: u32,
    pub pixels: Vec<[u8; 4]>,
}

/// The fully transparent pixel.
pub open spec fn clear_pixel() -> Seq<u8> {
    seq![0u8, 0u8, 0u8, 0u8]
}

/// Distinct positions inside a row of width `w` have distinct row-major indices.
pub proof fn lemma_index_unique(x1: int, y1: int, x2: int, y2: int, w: int)
    requires
        0 <= x1 < w,
        0 <= x2 < w,
        0 <= y1,
        0 <= y2,
        y1 * w + x1 == y2 * w + x2,
    ensures
        x1 == x2,
        y1 == y2,
{
    if y1 < y2 {
        assert(y1 * w + w <= y2 * w) by (nonlinear_arith)
            requires
                y1 < y2,
                0 <= w,
        ;
    } else if y2 < y1 {
        assert(y2 * w + w <= y1 * w) by (nonlinear_arith)
            requires
                y2 < y1,
                0 <= w,
        ;
    }
}

/// A position inside a `w × h` raster has a row-major index below `w * h`.
pub proof fn lemma_index_in_bounds(x: int, y: int, w: int, h: int)
    requires
        0 <= x < w,
        0 <= y < h,
    ensures
        0 <= y * w + x < w * h,
{
    assert(0 <= y * w && y * w + w <= h * w) by (nonlinear_arith)
        requires
            0 <= y < h,
            0 <= w,
    ;
    assert(h * w == w * h) by (nonlinear_arith);
}

impl Canvas {
    /// One pixel per position.
    pub open spec fn wf(&self) -> bool {
        self.pixels@.len() == self.width * self.height
    }

    /// The pixel at column `x`, row `y`, as red, green, blue and alpha.
    pub open spec fn pixel(&self, x: int, y: int) -> Seq<u8> {
        self.pixels@[y * self.width + x]@
    }

    /// A fully transparent canvas of the given size.
    pub fn new(width: u32, height: u32) -> (r: Canvas)
        requires
            width * height <= usize::MAX,
        ensures
            r.wf(),
            r.width == width,
            r.height == height,
            forall|x: int, y: int|
                0 <= x < width && 0 <= y < height ==> #[trigger] r.pixel(x, y) == clear_pixel(),
    {
        let n = width as usize * height as usize;
        let mut pixels: Vec<[u8; 4]> = Vec::new();
        let mut i: usize = 0;
        while i < n
            invariant
                0 <= i <= n,
                pixels@.len() == i,
                forall|k: int| 0 <= k < i ==> (#[trigger] pixels@[k])@ == clear_pixel(),
            decreases n - i,
        {
            let p = [0u8; 4];
            assert(p@ =~= clear_pixel());
            pixels.push(p);
            i = i + 1;
        }
        let r = Canvas { width, height, pixels };
        assert forall|x: int, y: int|
            0 <= x < width && 0 <= y < height implies #[trigger] r.pixel(x, y) == clear_pixel() by {
            lemma_index_in_bounds(x, y, width as int, height as int);
        }
        r
    }

    /// The pixel at `(x, y)`.
    pub fn get_pixel(&self, x: u32, y: u32) -> (r: [u8; 4])
        requires
            self.wf(),
            x < self.width,
            y < self.height,
        ensures
            r@ == self.pixel(x as int, y as int),
    {
        let n = self.pixels.len();
        proof {
            lemma_index_in_bounds(x as int, y as int, self.width as int, self.height as int);
            assert(0 <= y * self.width <= y * self.width + x < n);
        }
        self.pixels[y as usize * self.width as usize + x as usize]
    }

    /// Overwrites the pixel at `(x, y)`; every other pixel is kept.
    pub fn put_pixel(&mut self, x: u32, y: u32, c: [u8; 4])
        requires
            old(self).wf(),
            x < old(self).width,
            y < old(self).height,
        ensures
            final(self).wf(),
            final(self).width == old(self).width,
            final(self).height == old(self).height,
            forall|px: int, py: int|
                0 <= px < old(self).width && 0 <= py < old(self).height ==> #[trigger] final(self).pixel(px, py)
                    == if px == x && py == y {
                    c@
                } else {
                    old(self).pixel(px, py)
                },
    {
        let n = self.pixels.len();
        proof {
            lemma_index_in_bounds(x as int, y as int, self.width as int, self.height as int);
            assert(0 <= y * self.width <= y * self.width + x < n);
        }
        let i = y as usize * self.width as usize + x as usize;
        self.pixels[i] = c;
        proof {
            assert forall|px: int, py: int|
                0 <= px < self.width && 0 <= py < self.height && !(px == x && py == y) implies
                #[trigger] self.pixel(px, py) == old(self).pixel(px, py) by {
                lemma_index_in_bounds(px, py, self.width as int, self.height as int);
                if py * self.width + px == i {
                    lemma_index_unique(px, py, x as int, y as int, self.width as int);
                }
            }
        }
    }

    /// The raw RGBA bytes: four per pixel, in row-major order.
    pub open spec fn rgba(&self) -> Seq<u8> {
        Seq::new(4 * self.pixels@.len(), |j: int| self.pixels@[j / 4]@[j % 4])
    }

    /// The raw RGBA bytes, four per pixel, in row-major order.
    pub fn to_rgba_bytes(&self) -> (r: Vec<u8>)
        ensures
            r@ == self.rgba(),
    {
        let mut r: Vec<u8> = Vec::new();
        let mut i: usize = 0;
        while i < self.pixels.len()
            invariant
                0 <= i <= self.pixels@.len(),
                r@.len() == 4 * i,
                forall|j: int, k: int|
                    0 <= j < i && 0 <= k < 4 ==> #[trigger] r@[4 * j + k] == self.pixels@[j]@[k],
            decreases self.pixels@.len() - i,
        {
            let p = self.pixels[i];
            r.push(p[0]);
            r.push(p[1]);
            r.push(p[2]);
            r.push(p[3]);
            assert forall|j: int, k: int| 0 <= j < i + 1 && 0 <= k < 4 implies #[trigger] r@[4 * j + k]
                == self.pixels@[j]@[k] by {
                if j == i {
                    assert(r@[4 * j + k] == p@[k]);
                }
            }
            i = i + 1;
        }
        assert forall|j: int| 0 <= j < r@.len() implies #[trigger] r@[j] == self.rgba()[j] by {
            assert(r@[4 * (j / 4) + j % 4] == self.pixels@[j / 4]@[j % 4]);
        }
        assert(r@ =~= self.rgba());
        r
    }
}

} // verus!
