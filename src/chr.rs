//! CHR tiles: decoding from bit-planes, and the three geometric transforms.
use vstd::prelude::*;

use crate::Error;

verus! {

/// An 8×8 tile of 2-bit colour indices, one byte per pixel, indexed `[row][column]`.
pub type ChrPixelPattern = [[u8; 8]; 8];

/// The tile as a sequence of rows, each a sequence of pixel values.
pub open spec fn pattern_view(p: ChrPixelPattern) -> Seq<Seq<u8>> {
    Seq::new(8, |y: int| p@[y]@)
}

/// An 8×8 grid whose every value is a 2-bit colour index.
pub open spec fn pattern_wf(p: Seq<Seq<u8>>) -> bool {
    &&& p.len() == 8
    &&& forall|y: int| 0 <= y < 8 ==> (#[trigger] p[y]).len() == 8
    &&& forall|y: int, x: int| 0 <= y < 8 && 0 <= x < 8 ==> #[trigger] p[y][x] <= 3
}

/// Bit `x` of `b`, counting from the most significant bit.
pub open spec fn msb_bit(b: u8, x: int) -> u8 {
    (b >> ((7 - x) as u8)) & 1
}

/// The tile that a 16-byte chunk encodes: plane 0 (bytes 0..8) gives the low bit of
/// each pixel, plane 1 (bytes 8..16) the high bit; byte `y` of a plane is row `y`.
pub open spec fn decoded(b: Seq<u8>) -> Seq<Seq<u8>> {
    Seq::new(8, |y: int| Seq::new(8, |x: int| (msb_bit(b[y], x) + 2 * msb_bit(b[y + 8], x)) as u8))
}

/// The tiles that a byte string encodes, one per 16-byte chunk.
pub open spec fn decoded_all(b: Seq<u8>) -> Seq<Seq<Seq<u8>>> {
    Seq::new(b.len() / 16, |i: int| decoded(b.subrange(16 * i, 16 * i + 16)))
}

/// The tile mirrored across its vertical axis.
pub open spec fn flipped_x(p: Seq<Seq<u8>>) -> Seq<Seq<u8>> {
    Seq::new(8, |y: int| Seq::new(8, |x: int| p[y][7 - x]))
}

/// The tile mirrored across its horizontal axis.
pub open spec fn flipped_y(p: Seq<Seq<u8>>) -> Seq<Seq<u8>> {
    Seq::new(8, |y: int| p[7 - y])
}

/// The tile mirrored across its main diagonal.
pub open spec fn transposed(p: Seq<Seq<u8>>) -> Seq<Seq<u8>> {
    Seq::new(8, |y: int| Seq::new(8, |x: int| p[x][y]))
}

proof fn lemma_bit_le_1(b: u8, s: u8)
    ensures
        (b >> s) & 1 <= 1,
{
    assert((b >> s) & 1 <= 1) by (bit_vector);
}

/// Decoding yields 2-bit values only.
pub proof fn lemma_decoded_wf(b: Seq<u8>)
    requires
        b.len() == 16,
    ensures
        pattern_wf(decoded(b)),
{
    assert forall|y: int, x: int| 0 <= y < 8 && 0 <= x < 8 implies #[trigger] decoded(b)[y][x]
        <= 3 by {
        lemma_bit_le_1(b[y], (7 - x) as u8);
        lemma_bit_le_1(b[y + 8], (7 - x) as u8);
    }
}

/// Decodes one 16-byte chunk into a tile.
pub fn read_single_chr(b: [u8; 16]) -> (r: ChrPixelPattern)
    ensures
        pattern_view(r) == decoded(b@),
        pattern_wf(pattern_view(r)),
{
    let mut r: ChrPixelPattern = [[0u8; 8]; 8];
    let mut y: usize = 0;
    while y < 8
        invariant
            0 <= y <= 8,
            forall|j: int| 0 <= j < y ==> (#[trigger] r@[j])@ == decoded(b@)[j],
        decreases 8 - y,
    {
        let lo = b[y];
        let hi = b[y + 8];
        let mut row = [0u8; 8];
        let mut x: u8 = 0;
        while x < 8
            invariant
                0 <= x <= 8,
                y < 8,
                lo == b@[y as int],
                hi == b@[y + 8],
                forall|i: int| 0 <= i < x ==> row@[i] == decoded(b@)[y as int][i],
            decreases 8 - x,
        {
            proof {
                lemma_bit_le_1(lo, (7 - x) as u8);
                lemma_bit_le_1(hi, (7 - x) as u8);
            }
            row[x as usize] = ((lo >> (7 - x)) & 1) + 2 * ((hi >> (7 - x)) & 1);
            assert(row@[x as int] == decoded(b@)[y as int][x as int]);
            x = x + 1;
        }
        assert(row@ =~= decoded(b@)[y as int]);
        r[y] = row;
        y = y + 1;
    }
    assert(pattern_view(r) =~= decoded(b@));
    proof {
        lemma_decoded_wf(b@);
    }
    r
}

/// Mirrors a tile across its vertical axis: each row is reversed.
pub fn flip_x(b: &mut ChrPixelPattern)
    ensures
        pattern_view(*final(b)) == flipped_x(pattern_view(*old(b))),
{
    let src = *b;
    let mut y: usize = 0;
    while y < 8
        invariant
            0 <= y <= 8,
            forall|j: int| 0 <= j < y ==> (#[trigger] b@[j])@ == flipped_x(pattern_view(src))[j],
        decreases 8 - y,
    {
        let mut row = [0u8; 8];
        let mut x: usize = 0;
        while x < 8
            invariant
                0 <= x <= 8,
                y < 8,
                forall|i: int| 0 <= i < x ==> row@[i] == flipped_x(pattern_view(src))[y as int][i],
            decreases 8 - x,
        {
            row[x] = src[y][7 - x];
            x = x + 1;
        }
        assert(row@ =~= flipped_x(pattern_view(src))[y as int]);
        b[y] = row;
        y = y + 1;
    }
    assert(pattern_view(*b) =~= flipped_x(pattern_view(src)));
}

/// Mirrors a tile across its horizontal axis: the order of the rows is reversed.
pub fn flip_y(b: &mut ChrPixelPattern)
    ensures
        pattern_view(*final(b)) == flipped_y(pattern_view(*old(b))),
{
    let src = *b;
    let mut y: usize = 0;
    while y < 8
        invariant
            0 <= y <= 8,
            forall|j: int| 0 <= j < y ==> (#[trigger] b@[j])@ == flipped_y(pattern_view(src))[j],
        decreases 8 - y,
    {
        b[y] = src[7 - y];
        y = y + 1;
    }
    assert(pattern_view(*b) =~= flipped_y(pattern_view(src)));
}

/// Mirrors a tile across its main diagonal: the pixel at row `i`, column `j` trades
/// places with the one at row `j`, column `i`.
pub fn transpose(b: &mut ChrPixelPattern)
    ensures
        pattern_view(*final(b)) == transposed(pattern_view(*old(b))),
{
    let src = *b;
    let mut y: usize = 0;
    while y < 8
        invariant
            0 <= y <= 8,
            forall|j: int| 0 <= j < y ==> (#[trigger] b@[j])@ == transposed(pattern_view(src))[j],
        decreases 8 - y,
    {
        let mut row = [0u8; 8];
        let mut x: usize = 0;
        while x < 8
            invariant
                0 <= x <= 8,
                y < 8,
                forall|i: int| 0 <= i < x ==> row@[i] == transposed(pattern_view(src))[y as int][i],
            decreases 8 - x,
        {
            row[x] = src[x][y];
            x = x + 1;
        }
        assert(row@ =~= transposed(pattern_view(src))[y as int]);
        b[y] = row;
        y = y + 1;
    }
    assert(pattern_view(*b) =~= transposed(pattern_view(src)));
}

/// The 16-byte chunk at position `i` of `b`.
pub open spec fn chunk16(b: Seq<u8>, i: int) -> Seq<u8> {
    b.subrange(16 * i, 16 * i + 16)
}

/// Decodes a byte string into one tile per 16-byte chunk; a length that is not a
/// multiple of 16 leaves a partial chunk and is refused.
pub fn read_bytes(b: Vec<u8>) -> (r: Result<Vec<ChrPixelPattern>, Error>)
    ensures
        b@.len() % 16 != 0 ==> r == Err::<Vec<ChrPixelPattern>, Error>(Error::MalformedChunk),
        b@.len() % 16 == 0 ==> r is Ok,
        r matches Ok(v) ==> {
            &&& v@.len() == b@.len() / 16
            &&& forall|i: int| 0 <= i < v@.len() ==> pattern_view(#[trigger] v@[i]) == decoded_all(b@)[i]
        },
{
    if b.len() % 16 != 0 {
        return Err(Error::MalformedChunk);
    }
    let n = b.len() / 16;
    let mut chrs: Vec<ChrPixelPattern> = Vec::new();
    let mut i: usize = 0;
    while i < n
        invariant
            n == b@.len() / 16,
            b@.len() == 16 * n,
            16 * n <= usize::MAX,
            0 <= i <= n,
            chrs@.len() == i,
            forall|k: int| 0 <= k < i ==> pattern_view(#[trigger] chrs@[k]) == decoded_all(b@)[k],
        decreases n - i,
    {
        let mut c = [0u8; 16];
        let mut k: usize = 0;
        while k < 16
            invariant
                0 <= k <= 16,
                i < n,
                b@.len() == 16 * n,
                16 * n <= usize::MAX,
                forall|j: int| 0 <= j < k ==> c@[j] == b@[16 * i + j],
            decreases 16 - k,
        {
            assert(16 * i + k < 16 * n) by (nonlinear_arith)
                requires
                    i < n,
                    k < 16,
            ;
            c[k] = b[16 * i + k];
            k = k + 1;
        }
        assert(c@ =~= chunk16(b@, i as int));
        let p = read_single_chr(c);
        chrs.push(p);
        i = i + 1;
    }
    Ok(chrs)
}

/// The byte of bit-plane `plane` (0 or 1) of a row of pixels: bit `plane` of pixel `x`
/// becomes bit `x` of the byte counting from the most significant bit.
pub open spec fn plane_byte(row: Seq<u8>, plane: u8) -> u8 {
    (((row[0] >> plane) & 1u8) << 7u8) | (((row[1] >> plane) & 1u8) << 6u8) | (((row[2] >> plane) & 1u8) << 5u8)
        | (((row[3] >> plane) & 1u8) << 4u8) | (((row[4] >> plane) & 1u8) << 3u8) | (((row[5] >> plane) & 1u8)
        << 2u8) | (((row[6] >> plane) & 1u8) << 1u8) | ((row[7] >> plane) & 1u8)
}

/// The 16-byte chunk that encodes a tile: the low bits of its rows, then the high bits.
pub open spec fn encoded(p: Seq<Seq<u8>>) -> Seq<u8> {
    Seq::new(16, |i: int| if i < 8 { plane_byte(p[i], 0) } else { plane_byte(p[i - 8], 1) })
}

proof fn lemma_pixel_planes(lo: u8, hi: u8, v: u8)
    by (bit_vector)
    requires
        lo <= 1,
        hi <= 1,
        v == lo + 2 * hi,
    ensures
        (v >> 0u8) & 1u8 == lo,
        (v >> 1u8) & 1u8 == hi,
{
}

proof fn lemma_byte_of_bits(b: u8)
    by (bit_vector)
    ensures
        b == (((b >> 7u8) & 1u8) << 7u8) | (((b >> 6u8) & 1u8) << 6u8) | (((b >> 5u8) & 1u8) << 5u8) | (((b >> 4u8)
            & 1u8) << 4u8) | (((b >> 3u8) & 1u8) << 3u8) | (((b >> 2u8) & 1u8) << 2u8) | (((b >> 1u8) & 1u8) << 1u8)
            | ((b >> 0u8) & 1u8),
{
}

/// Encoding a decoded chunk gives the chunk back.
pub proof fn lemma_encode_decoded(b: Seq<u8>)
    requires
        b.len() == 16,
    ensures
        encoded(decoded(b)) == b,
{
    let p = decoded(b);
    assert forall|y: int| 0 <= y < 8 implies plane_byte(#[trigger] p[y], 0) == b[y] && plane_byte(p[y], 1) == b[y + 8] by {
        assert forall|x: int| 0 <= x < 8 implies (#[trigger] p[y][x] >> 0u8) & 1u8 == msb_bit(b[y], x) && (p[y][x] >> 1u8)
            & 1u8 == msb_bit(b[y + 8], x) by {
            lemma_bit_le_1(b[y], (7 - x) as u8);
            lemma_bit_le_1(b[y + 8], (7 - x) as u8);
            lemma_pixel_planes(msb_bit(b[y], x), msb_bit(b[y + 8], x), p[y][x]);
        }
        lemma_byte_of_bits(b[y]);
        lemma_byte_of_bits(b[y + 8]);
    }
    assert forall|i: int| 0 <= i < 16 implies #[trigger] encoded(p)[i] == b[i] by {
        if i < 8 {
            assert(plane_byte(p[i], 0) == b[i]);
        } else {
            assert(plane_byte(p[i - 8], 1) == b[(i - 8) + 8]);
        }
    }
    assert(encoded(p) =~= b);
}

/// Mirroring a tile twice across the same axis, or transposing it twice, gives the
/// tile back.
pub proof fn lemma_transforms_self_inverse(p: ChrPixelPattern)
    ensures
        flipped_x(flipped_x(pattern_view(p))) == pattern_view(p),
        flipped_y(flipped_y(pattern_view(p))) == pattern_view(p),
        transposed(transposed(pattern_view(p))) == pattern_view(p),
{
    let v = pattern_view(p);
    assert(flipped_x(flipped_x(v)) =~~= v);
    assert(flipped_y(flipped_y(v)) =~~= v);
    assert(transposed(transposed(v)) =~~= v);
}

/// Decoding is deterministic: two tiles decoded from the same chunk are the same tile.
pub proof fn lemma_decode_deterministic(p: ChrPixelPattern, q: ChrPixelPattern, b: Seq<u8>)
    requires
        pattern_view(p) == decoded(b),
        pattern_view(q) == decoded(b),
    ensures
        p == q,
{
    assert forall|y: int| 0 <= y < 8 implies p@[y] == q@[y] by {
        assert(p@[y]@ == pattern_view(p)[y]);
        assert(q@[y]@ == pattern_view(q)[y]);
        assert(p@[y] =~= q@[y]);
    }
    assert(p =~= q);
}

proof fn lemma_byte_from_bits(a: u8, b: u8)
    by (bit_vector)
    requires
        (a >> 7u8) & 1 == (b >> 7u8) & 1,
        (a >> 6u8) & 1 == (b >> 6u8) & 1,
        (a >> 5u8) & 1 == (b >> 5u8) & 1,
        (a >> 4u8) & 1 == (b >> 4u8) & 1,
        (a >> 3u8) & 1 == (b >> 3u8) & 1,
        (a >> 2u8) & 1 == (b >> 2u8) & 1,
        (a >> 1u8) & 1 == (b >> 1u8) & 1,
        (a >> 0u8) & 1 == (b >> 0u8) & 1,
    ensures
        a == b,
{
}

/// Decoding loses nothing: the chunk can be read back from its tile, so two chunks
/// that decode to the same tile are the same chunk.
pub proof fn lemma_decode_injective(b1: Seq<u8>, b2: Seq<u8>)
    requires
        b1.len() == 16,
        b2.len() == 16,
        decoded(b1) == decoded(b2),
    ensures
        b1 == b2,
{
    assert forall|y: int| 0 <= y < 8 implies #[trigger] b1[y] == b2[y] && b1[y + 8] == b2[y + 8] by {
        assert forall|x: int| 0 <= x < 8 implies #[trigger] msb_bit(b1[y], x) == msb_bit(b2[y], x) && msb_bit(b1[y + 8], x)
            == msb_bit(b2[y + 8], x) by {
            lemma_bit_le_1(b1[y], (7 - x) as u8);
            lemma_bit_le_1(b2[y], (7 - x) as u8);
            lemma_bit_le_1(b1[y + 8], (7 - x) as u8);
            lemma_bit_le_1(b2[y + 8], (7 - x) as u8);
            assert(decoded(b1)[y][x] == (msb_bit(b1[y], x) + 2 * msb_bit(b1[y + 8], x)) as u8);
            assert(decoded(b2)[y][x] == (msb_bit(b2[y], x) + 2 * msb_bit(b2[y + 8], x)) as u8);
            assert(decoded(b1)[y][x] == decoded(b2)[y][x]);
        }
        let (lo1, lo2, hi1, hi2) = (b1[y], b2[y], b1[y + 8], b2[y + 8]);
        assert(msb_bit(lo1, 0) == msb_bit(lo2, 0) && msb_bit(lo1, 1) == msb_bit(lo2, 1));
        assert(msb_bit(lo1, 2) == msb_bit(lo2, 2) && msb_bit(lo1, 3) == msb_bit(lo2, 3));
        assert(msb_bit(lo1, 4) == msb_bit(lo2, 4) && msb_bit(lo1, 5) == msb_bit(lo2, 5));
        assert(msb_bit(lo1, 6) == msb_bit(lo2, 6) && msb_bit(lo1, 7) == msb_bit(lo2, 7));
        lemma_byte_from_bits(lo1, lo2);
        assert(msb_bit(hi1, 0) == msb_bit(hi2, 0) && msb_bit(hi1, 1) == msb_bit(hi2, 1));
        assert(msb_bit(hi1, 2) == msb_bit(hi2, 2) && msb_bit(hi1, 3) == msb_bit(hi2, 3));
        assert(msb_bit(hi1, 4) == msb_bit(hi2, 4) && msb_bit(hi1, 5) == msb_bit(hi2, 5));
        assert(msb_bit(hi1, 6) == msb_bit(hi2, 6) && msb_bit(hi1, 7) == msb_bit(hi2, 7));
        lemma_byte_from_bits(hi1, hi2);
    }
    assert forall|i: int| 0 <= i < 16 implies b1[i] == b2[i] by {
        if i >= 8 {
            assert(b1[i - 8] == b2[i - 8]);
        }
    }
    assert(b1 =~= b2);
}

/// The transforms keep every pixel value: a 2-bit tile stays a 2-bit tile.
pub proof fn lemma_transforms_wf(p: Seq<Seq<u8>>)
    requires
        pattern_wf(p),
    ensures
        pattern_wf(flipped_x(p)),
        pattern_wf(flipped_y(p)),
        pattern_wf(transposed(p)),
{
    assert forall|y: int, x: int| 0 <= y < 8 && 0 <= x < 8 implies #[trigger] transposed(p)[y][x] <= 3 by {
        assert(p[x][y] <= 3);
    }
    assert forall|y: int, x: int| 0 <= y < 8 && 0 <= x < 8 implies #[trigger] flipped_x(p)[y][x] <= 3 by {
        assert(p[y][7 - x] <= 3);
    }
    assert forall|y: int, x: int| 0 <= y < 8 && 0 <= x < 8 implies #[trigger] flipped_y(p)[y][x] <= 3 by {
        assert(p[7 - y][x] <= 3);
    }
}

} // verus!
