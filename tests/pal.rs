use chr_reatlas::pal::{read_palette_from_bytes, ChrPalette};
use chr_reatlas::Error;

#[test]
fn palette_reads_triplets_in_order() {
    assert_eq!(read_palette_from_bytes(vec![1, 2, 3, 4, 5, 6]), Ok(vec![[1, 2, 3], [4, 5, 6]]));
}

#[test]
fn palette_of_nothing_is_empty() {
    assert_eq!(read_palette_from_bytes(Vec::new()), Ok(Vec::new()));
}

#[test]
fn palette_refuses_partial_triplet() {
    assert_eq!(read_palette_from_bytes(vec![1, 2, 3, 4]), Err(Error::MalformedChunk));
    assert_eq!(read_palette_from_bytes(vec![9, 9]), Err(Error::MalformedChunk));
}

#[test]
fn default_palette_is_three_greys_without_background() {
    let p = ChrPalette::default();
    assert_eq!(p.c0, [86, 86, 86]);
    assert_eq!(p.c1, [170, 170, 170]);
    assert_eq!(p.c2, [255, 255, 255]);
    assert_eq!(p.cbg, None);
}
