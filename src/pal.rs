//! Colour palettes: the flat RGB table of a palette file, and the colours one tile is drawn with.
use vstd::prelude::*;

use crate::Error;

verus! {

/// The colours a tile is drawn with: `c0`, `c1`, `c2` for pixel values 1, 2 and 3, and
/// `cbg`, if any, for pixel value 0 (without it, value 0 is left unpainted).
#[derive(Clone, Copy, PartialEq, Eq, Debug)]
pub struct ChrPalette {
    /// colour of pixel value 1
    pub c0: [u8; 3],
    /// colour of pixel value 2
    pub c1: [u8; 3],
    /// colour of pixel value 3
    pub c2: [u8; 3],
    /// colour of pixel value 0, transparent when absent
    pub cbg: Option<[u8; 3]>,
}

/// A palette's colours as channel sequences.
pub struct PaletteView {
    pub c0: Seq<u8>,
    pub c1: Seq<u8>,
    pub c2: Seq<u8>,
    pub cbg: Option<Seq<u8>>,
}

impl View for ChrPalette {
    type V = PaletteView;

    open spec fn view(&self) -> PaletteView {
        PaletteView {
            c0: self.c0@,
            c1: self.c1@,
            c2: self.c2@,
            cbg: match self.cbg {
                Some(c) => Some(c@),
                None => None,
            },
        }
    }
}

impl Default for ChrPalette {
    /// Three greys from dark to white, over a transparent background.
    fn default() -> (r: Self)
        ensures
            r.c0@ == seq![86u8, 86u8, 86u8],
            r.c1@ == seq![170u8, 170u8, 170u8],
            r.c2@ == seq![255u8, 255u8, 255u8],
            r.cbg is None,
    {
        let r = ChrPalette { c0: [86, 86, 86], c1: [170, 170, 170], c2: [255, 255, 255], cbg: None };
        assert(r.c0@ =~= seq![86u8, 86u8, 86u8]);
        assert(r.c1@ =~= seq![170u8, 170u8, 170u8]);
        assert(r.c2@ =~= seq![255u8, 255u8, 255u8]);
        r
    }
}

/// The colours that a palette file holds, one per 3-byte group, in file order.
pub open spec fn colors_of(b: Seq<u8>) -> Seq<Seq<u8>> {
    Seq::new(b.len() / 3, |i: int| b.subrange(3 * i, 3 * i + 3))
}

/// Reads a palette file's bytes as a table of RGB colours; a trailing group of fewer
/// than three bytes is refused.
pub fn read_palette_from_bytes(b: Vec<u8>) -> (r: Result<Vec<[u8; 3]>, Error>)
    ensures
        b@.len() % 3 != 0 ==> r == Err::<Vec<[u8; 3]>, Error>(Error::MalformedChunk),
        b@.len() % 3 == 0 ==> r is Ok,
        r matches Ok(v) ==> {
            &&& v@.len() == b@.len() / 3
            &&& forall|i: int| 0 <= i < v@.len() ==> (#[trigger] v@[i])@ == colors_of(b@)[i]
        },
{
    if b.len() % 3 != 0 {
        return Err(Error::MalformedChunk);
    }
    let n = b.len() / 3;
    let mut pal: Vec<[u8; 3]> = Vec::new();
    let mut i: usize = 0;
    while i < n
        invariant
            n == b@.len() / 3,
            b@.len() == 3 * n,
            3 * n <= usize::MAX,
            0 <= i <= n,
            pal@.len() == i,
            forall|k: int| 0 <= k < i ==> (#[trigger] pal@[k])@ == colors_of(b@)[k],
        decreases n - i,
    {
        let c = [b[3 * i], b[3 * i + 1], b[3 * i + 2]];
        assert(c@ =~= colors_of(b@)[i as int]);
        pal.push(c);
        i = i + 1;
    }
    Ok(pal)
}

} // verus!
